//! Tags grouped by key: a store hands them out ordered by key, and a format keeps the values
//! of one key together.

use crate::input::TagInput;
use crate::mp3::frames::is_promoted_key;
use crate::mp3::frames::promoted_key;
use crate::text::same_text;
use vstd::prelude::*;
use vstd::string::*;

verus! {

/// Texts as mathematical values.
pub open spec fn texts(s: Seq<String>) -> Seq<Seq<char>> {
    Seq::new(s.len(), |i: int| s[i]@)
}

/// Consecutive values of one key.
pub(crate) struct Group {
    pub key: String,
    pub values: Vec<String>,
}

/// Groups as mathematical values: key and values.
pub(crate) open spec fn group_views(s: Seq<Group>) -> Seq<(Seq<char>, Seq<Seq<char>>)> {
    Seq::new(s.len(), |i: int| (s[i].key@, texts(s[i].values@)))
}

/// The tags grouped by key: consecutive values of one key make one group. Keys that ID3
/// keeps in frames of their own are left out where `promoted` says so.
pub open spec fn groups_of(tags: Seq<TagInput>, promoted: bool) -> Seq<(Seq<char>, Seq<Seq<char>>)>
    decreases tags.len(),
{
    if tags.len() == 0 {
        Seq::empty()
    } else {
        let before = groups_of(tags.drop_last(), promoted);
        let t = tags.last();
        if promoted && promoted_key(t.key@) {
            before
        } else if before.len() > 0 && before.last().0 == t.key@ {
            before.drop_last().push((t.key@, before.last().1.push(t.value@)))
        } else {
            before.push((t.key@, seq![t.value@]))
        }
    }
}

/// Group the tags by key.
pub(crate) fn group_tags(tags: &[TagInput], promoted: bool) -> (r: Vec<Group>)
    ensures
        group_views(r@) == groups_of(tags@, promoted),
{
    let mut groups: Vec<Group> = Vec::new();
    let mut i: usize = 0;
    assert(group_views(groups@) =~= Seq::empty());
    while i < tags.len()
        invariant
            i <= tags@.len(),
            group_views(groups@) == groups_of(tags@.take(i as int), promoted),
        decreases tags@.len() - i,
    {
        assert(tags@.take(i + 1).drop_last() =~= tags@.take(i as int));
        let t = &tags[i];
        if !promoted || !is_promoted_key(t.key.as_str()) {
            let ghost before = group_views(groups@);
            let n: usize = groups.len();
            proof {
                assert(before.len() == n);
                if n > 0 {
                    assert(before.last() == (groups@[n - 1].key@, texts(groups@[n - 1].values@)));
                }
            }
            if n > 0 && same_text(groups[n - 1].key.as_str(), t.key.as_str()) {
                let ghost old_groups = groups@;
                if let Some(g) = groups.pop() {
                    let mut g = g;
                    let ghost values = texts(g.values@);
                    g.values.push(t.value.clone());
                    assert(texts(g.values@) =~= values.push(t.value@));
                    groups.push(g);
                }
                assert(group_views(groups@) =~= before.drop_last().push(
                    (t.key@, before.last().1.push(t.value@)),
                ));
            } else {
                let mut values: Vec<String> = Vec::new();
                values.push(t.value.clone());
                assert(texts(values@) =~= seq![t.value@]);
                groups.push(Group { key: t.key.clone(), values });
                assert(group_views(groups@) =~= before.push((t.key@, seq![t.value@])));
            }
        }
        i = i + 1;
    }
    assert(tags@.take(i as int) =~= tags@);
    groups
}

} // verus!
