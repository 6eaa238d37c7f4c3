//! Dynamic world entities ("things") and their class-tag semantics.

use crate::pos::Pos;
use vstd::prelude::*;
use vstd::string::StrSliceExecFns;

verus! {

/// Position `i` in `s` starts an occurrence of `tag` that is bounded by the
/// start of the string or a space on the left, and by the end of the string
/// or a space on the right.
pub open spec fn class_match_at(s: Seq<char>, tag: Seq<char>, i: int) -> bool {
    &&& 0 <= i
    &&& i + tag.len() <= s.len()
    &&& s.subrange(i, i + tag.len() as int) == tag
    &&& (i == 0 || s[i - 1] == ' ')
    &&& (i + tag.len() == s.len() || s[i + tag.len() as int] == ' ')
}

/// `tag` occurs in the space-separated class list `s` as a whole,
/// delimiter-bounded word. `"spawn_player"` therefore does not carry the
/// class `"player"`.
pub open spec fn has_class_in(s: Seq<char>, tag: Seq<char>) -> bool {
    exists|i: int| class_match_at(s, tag, i)
}

/// A dynamic (non-tile) world entity: a player, a door, a spawn marker.
/// `classes` is a space-separated set of free-form tags.
#[derive(Clone, Debug)]
pub struct Thing {
    pub pos: Pos,
    pub classes: String,
    pub visible: bool,
}

impl Default for Thing {
    fn default() -> (t: Thing)
        ensures
            t.pos == (Pos { x: 0, y: 0 }),
            t.classes@ == Seq::<char>::empty(),
            !t.visible,
    {
        Thing { pos: Pos { x: 0, y: 0 }, classes: String::new(), visible: false }
    }
}

impl Thing {
    /// Whether this thing carries `tag` in its class list.
    pub fn has_class(&self, tag: &str) -> (r: bool)
        ensures
            r == has_class_in(self.classes@, tag@),
    {
        str_has_class(self.classes.as_str(), tag)
    }
}

/// Whether the character `i` positions into `s` (and the `tag.len()`
/// characters after it) spell `tag`, bounded by spaces or string ends.
fn class_match_at_exec(s: &str, tag: &str, i: usize) -> (r: bool)
    requires
        i + tag@.len() <= s@.len(),
    ensures
        r == class_match_at(s@, tag@, i as int),
{
    let m = tag.unicode_len();
    let n = s.unicode_len();
    if i > 0 && s.get_char(i - 1) != ' ' {
        return false;
    }
    if i + m < n && s.get_char(i + m) != ' ' {
        return false;
    }
    let mut j: usize = 0;
    while j < m
        invariant
            j <= m,
            m == tag@.len(),
            n == s@.len(),
            i + m <= n,
            forall|k: int| 0 <= k < j ==> s@[i + k] == tag@[k],
            i == 0 || s@[i - 1] == ' ',
            i + m == n || s@[i + m] == ' ',
        decreases m - j,
    {
        if s.get_char(i + j) != tag.get_char(j) {
            proof {
                assert(s@.subrange(i as int, i + m as int) != tag@) by {
                    if s@.subrange(i as int, i + m as int) == tag@ {
                        assert(s@.subrange(i as int, i + m as int)[j as int] == s@[i + j]);
                    }
                }
            }
            return false;
        }
        j += 1;
    }
    proof {
        assert(s@.subrange(i as int, i + m as int) =~= tag@);
    }
    true
}

/// Whole-word search for `tag` in the space-separated class string `s`.
pub fn str_has_class(s: &str, tag: &str) -> (r: bool)
    ensures
        r == has_class_in(s@, tag@),
{
    let n = s.unicode_len();
    let m = tag.unicode_len();
    if m > n {
        proof {
            assert forall|i: int| !class_match_at(s@, tag@, i) by {}
        }
        return false;
    }
    let last = n - m;
    let mut i: usize = 0;
    while i < last
        invariant
            m <= n,
            n == s@.len(),
            m == tag@.len(),
            last == n - m,
            i <= last,
            forall|k: int| 0 <= k < i ==> !class_match_at(s@, tag@, k),
        decreases last - i,
    {
        if class_match_at_exec(s, tag, i) {
            assert(class_match_at(s@, tag@, i as int));
            return true;
        }
        i += 1;
    }
    if class_match_at_exec(s, tag, last) {
        assert(class_match_at(s@, tag@, last as int));
        return true;
    }
    proof {
        assert forall|k: int| !class_match_at(s@, tag@, k) by {
            if 0 <= k <= last {
            } else if class_match_at(s@, tag@, k) {
                assert(k + tag@.len() <= s@.len());
            }
        }
    }
    false
}

/// What a thing looks like after an incremental update: a field present in
/// the update replaces the old value, an absent field keeps it.
pub open spec fn merged_thing(
    t: Thing,
    pos: Option<Pos>,
    classes: Option<String>,
    visible: Option<bool>,
) -> Thing {
    Thing {
        pos: match pos {
            Some(p) => p,
            None => t.pos,
        },
        classes: match classes {
            Some(c) => c,
            None => t.classes,
        },
        visible: match visible {
            Some(v) => v,
            None => t.visible,
        },
    }
}

/// Apply an incremental update to a thing in place.
pub fn apply_thing_update(
    t: &mut Thing,
    pos: Option<Pos>,
    classes: Option<String>,
    visible: Option<bool>,
)
    ensures
        *final(t) == merged_thing(*old(t), pos, classes, visible),
{
    if let Some(p) = pos {
        t.pos = p;
    }
    if let Some(c) = classes {
        t.classes = c;
    }
    if let Some(v) = visible {
        t.visible = v;
    }
}

/// An update that carries no fields never changes a thing.
pub proof fn lemma_thing_merge_empty(t: Thing)
    ensures
        merged_thing(t, None, None, None) == t,
{
}

} // verus!
