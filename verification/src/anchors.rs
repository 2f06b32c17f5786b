//! The fixes of one pass, gathered by the id of their anchor.
//!
//! The map is a `rustc_hash::FxHashMap`: the standard hash map under the Fx
//! hasher. What the map does with its keys is taken on trust here, in the
//! four functions at the top; everything built on them is proved.

use rustc_hash::FxHashMap;
use vstd::prelude::*;

use crate::fix::{fix_views, AnchorEditInfo, AnchorEditInfoV, LintFix, LintFixV};

verus! {

#[verifier::external_type_specification]
#[verifier::external_body]
pub struct ExFxBuildHasher(rustc_hash::FxBuildHasher);

/// `FxHashMap::default`, which is `HashMap::default` under
/// `rustc_hash::FxBuildHasher`: the map it makes holds nothing.
#[verifier::external_body]
pub(crate) fn fx_new<V>() -> (m: FxHashMap<u32, V>)
    ensures
        forall|k: u32| !m@.contains_key(k),
{
    FxHashMap::default()
}

/// `HashMap::is_empty` on an `FxHashMap`: whether the map holds no key.
#[verifier::external_body]
pub(crate) fn fx_is_empty<V>(m: &FxHashMap<u32, V>) -> (r: bool)
    ensures
        r == (forall|k: u32| !m@.contains_key(k)),
{
    m.is_empty()
}

/// `HashMap::remove` on an `FxHashMap`: takes the key out and hands back
/// the value that was under it, or `None` where the map did not hold the key.
#[verifier::external_body]
pub(crate) fn fx_remove<V>(m: &mut FxHashMap<u32, V>, key: u32) -> (r: Option<V>)
    ensures
        final(m)@ == old(m)@.remove(key),
        r == (if old(m)@.contains_key(key) {
            Some(old(m)@[key])
        } else {
            None
        }),
{
    m.remove(&key)
}

/// `HashMap::insert` on an `FxHashMap`: puts the value under the key, in
/// place of the value that was there, if one was.
#[verifier::external_body]
pub(crate) fn fx_insert<V>(m: &mut FxHashMap<u32, V>, key: u32, value: V)
    ensures
        final(m)@ == old(m)@.insert(key, value),
{
    m.insert(key, value);
}

/// The views of what a map holds for each anchor.
pub open spec fn infos_view(m: Map<u32, AnchorEditInfo>) -> Map<u32, AnchorEditInfoV> {
    m.map_values(|a: AnchorEditInfo| a@)
}

/// What the first `n` fixes of `fixes` come to, anchor by anchor: each fix
/// is added to what was gathered for the id of its anchor, which is nothing
/// at first.
pub open spec fn spec_anchor_edit_info(fixes: Seq<LintFixV>, n: int) -> Map<u32, AnchorEditInfoV>
    decreases n,
{
    if n <= 0 || n > fixes.len() {
        Map::empty()
    } else {
        let m = spec_anchor_edit_info(fixes, n - 1);
        let id = fixes[n - 1].anchor.id;
        let info = if m.contains_key(id) {
            m[id]
        } else {
            AnchorEditInfoV::empty()
        };
        m.insert(id, info.add(fixes[n - 1]))
    }
}

/// Gathers the fixes by the id of their anchor.
pub fn compute_anchor_edit_info(fixes: Vec<LintFix>) -> (r: FxHashMap<u32, AnchorEditInfo>)
    ensures
        infos_view(r@) == spec_anchor_edit_info(fix_views(fixes@), fixes@.len() as int),
        forall|k: u32| r@.contains_key(k) ==> (#[trigger] r@[k])@.wf(),
{
    let mut anchor_info: FxHashMap<u32, AnchorEditInfo> = fx_new();
    let mut i: usize = 0;
    assert(infos_view(anchor_info@) =~= Map::<u32, AnchorEditInfoV>::empty());
    while i < fixes.len()
        invariant
            i <= fixes@.len(),
            infos_view(anchor_info@) == spec_anchor_edit_info(fix_views(fixes@), i as int),
            forall|k: u32| anchor_info@.contains_key(k) ==> (#[trigger] anchor_info@[k])@.wf(),
        decreases fixes.len() - i,
    {
        let fix = fixes[i].copy();
        let anchor_id = fix.anchor.id();
        let ghost before = anchor_info@;
        assert(fix_views(fixes@)[i as int] == fixes@[i as int]@);
        assert(infos_view(before).contains_key(anchor_id) == before.contains_key(anchor_id));
        let mut info = match fx_remove(&mut anchor_info, anchor_id) {
            Some(info) => {
                assert(infos_view(before)[anchor_id] == info@);
                info
            },
            None => AnchorEditInfo::default(),
        };
        info.add(fix);
        fx_insert(&mut anchor_info, anchor_id, info);
        proof {
            assert(anchor_info@ =~= before.insert(anchor_id, info));
            assert(infos_view(anchor_info@) =~= infos_view(before).insert(anchor_id, info@));
        }
        i += 1;
    }
    anchor_info
}

} // verus!
