//! How tags are grouped: nothing is lost, nothing is moved, and no two groups in a row could
//! be one.

use crate::groups::groups_of;
use crate::input::TagInput;
use crate::mp3::frames::promoted_key;
use vstd::prelude::*;
use vstd::string::*;

verus! {

/// The values of groups, each under its key, in order.
pub open spec fn ungrouped(groups: Seq<(Seq<char>, Seq<Seq<char>>)>) -> Seq<(Seq<char>, Seq<char>)>
    decreases groups.len(),
{
    if groups.len() == 0 {
        Seq::empty()
    } else {
        ungrouped(groups.drop_last()) + groups.last().1.map_values(
            |v: Seq<char>| (groups.last().0, v),
        )
    }
}

/// The tag goes among the groups: all do, but where ratings, play counts and track ids have
/// frames of their own these do not.
pub open spec fn is_grouped(t: TagInput, promoted: bool) -> bool {
    !promoted || (t.key@ != "rating"@ && t.key@ != "playcount"@ && t.key@
        != "musicbrainz_trackid"@)
}

/// The groups hold the tags in order, value for value. None is empty, and two in a row have
/// different keys.
pub proof fn groups_hold_the_tags(tags: Seq<TagInput>, promoted: bool)
    ensures
        ungrouped(groups_of(tags, promoted)) == tags.filter(
            |t: TagInput| is_grouped(t, promoted),
        ).map_values(|t: TagInput| (t.key@, t.value@)),
        forall|i: int|
            0 <= i < groups_of(tags, promoted).len() ==> (#[trigger] groups_of(
                tags,
                promoted,
            )[i]).1.len() > 0,
        forall|i: int|
            0 < i < groups_of(tags, promoted).len() ==> (#[trigger] groups_of(tags, promoted)[i]).0
                != groups_of(tags, promoted)[i - 1].0,
    decreases tags.len(),
{
    reveal(Seq::filter);
    let ok = |t: TagInput| is_grouped(t, promoted);
    let pair = |t: TagInput| (t.key@, t.value@);
    let g = groups_of(tags, promoted);
    let all = tags.filter(ok).map_values(pair);
    if tags.len() == 0 {
        assert(ungrouped(g) =~= all);
    } else {
        let t = tags.last();
        let front = tags.drop_last();
        let before = groups_of(front, promoted);
        groups_hold_the_tags(front, promoted);
        if is_grouped(t, promoted) {
            assert(all =~= front.filter(ok).map_values(pair).push((t.key@, t.value@)));
            if before.len() > 0 && before.last().0 == t.key@ {
                let last = (t.key@, before.last().1.push(t.value@));
                assert(g == before.drop_last().push(last));
                assert(g.drop_last() =~= before.drop_last());
                assert(last.1.map_values(|v: Seq<char>| (last.0, v)) =~= before.last().1.map_values(
                    |v: Seq<char>| (before.last().0, v),
                ).push((t.key@, t.value@)));
                assert(ungrouped(g) =~= all);
                assert forall|i: int| 0 < i < g.len() implies (#[trigger] g[i]).0 != g[i
                    - 1].0 by {
                    assert(before[i].0 != before[i - 1].0);
                }
            } else {
                assert(g.drop_last() =~= before);
                assert(seq![t.value@].map_values(|v: Seq<char>| (t.key@, v)) =~= seq![
                    (t.key@, t.value@),
                ]);
                assert(ungrouped(g) =~= all);
                assert forall|i: int| 0 < i < g.len() implies (#[trigger] g[i]).0 != g[i
                    - 1].0 by {
                    if i < before.len() {
                        assert(before[i].0 != before[i - 1].0);
                    }
                }
            }
        } else {
            assert(promoted_key(t.key@));
            assert(all =~= front.filter(ok).map_values(pair));
        }
    }
}

} // verus!
