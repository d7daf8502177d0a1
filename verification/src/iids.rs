//! Instance ids of the lightbulb accessory.
//!
//! Instance ids have to be unique within an accessory. The ids of the
//! information service may have holes, so that the lightbulb service, placed by
//! counting, can come to lie among them. Moving it as a whole behind the highest
//! of them makes room.

use vstd::prelude::*;

verus! {

/// The instance ids of a lightbulb accessory.
#[derive(Debug)]
pub struct LightbulbIids {
    /// The characteristics of the information service.
    pub information: Vec<u64>,
    /// The lightbulb service itself.
    pub service: u64,
    /// The characteristics of the lightbulb service.
    pub characteristics: Vec<u64>,
}

/// The highest of some ids, or 1 where there is none.
pub open spec fn highest(ids: Seq<u64>) -> u64
    decreases ids.len(),
{
    if ids.len() == 0 {
        1
    } else if ids.len() == 1 || ids.last() >= highest(ids.drop_last()) {
        ids.last()
    } else {
        highest(ids.drop_last())
    }
}

/// How far the lightbulb service has to move to come behind the information service.
pub open spec fn needed_shift(iids: LightbulbIids) -> int {
    if highest(iids.information@) < iids.service {
        0
    } else {
        highest(iids.information@) + 1 - iids.service
    }
}

/// `moved` is `iids` with the whole lightbulb service moved by `shift`.
pub open spec fn moved_by(iids: LightbulbIids, moved: LightbulbIids, shift: int) -> bool {
    &&& moved.information@ == iids.information@
    &&& moved.service == iids.service + shift
    &&& moved.characteristics@.len() == iids.characteristics@.len()
    &&& forall|i: int|
        0 <= i < iids.characteristics@.len() ==> #[trigger] moved.characteristics@[i]
            == iids.characteristics@[i] + shift
}

/// The highest of some ids, or 1 where there is none.
fn highest_id(ids: &Vec<u64>) -> (top: u64)
    ensures
        top == highest(ids@),
{
    if ids.len() == 0 {
        return 1;
    }
    let mut top: u64 = ids[0];
    let mut i: usize = 1;
    assert(ids@.take(1).last() == ids@[0]);
    while i < ids.len()
        invariant
            1 <= i <= ids@.len(),
            top == highest(ids@.take(i as int)),
        decreases ids@.len() - i,
    {
        proof {
            assert(ids@.take(i + 1).drop_last() =~= ids@.take(i as int));
            assert(ids@.take(i + 1).last() == ids@[i as int]);
        }
        if ids[i] >= top {
            top = ids[i];
        }
        i += 1;
    }
    assert(ids@.take(i as int) =~= ids@);
    top
}

/// Moves the lightbulb service so that its ids lie behind those of the
/// information service, where they do not already.
pub fn fix_lightbulb_iids(iids: &mut LightbulbIids)
    requires
        highest(old(iids).information@) < u64::MAX,
        forall|i: int|
            0 <= i < old(iids).characteristics@.len() ==> #[trigger] old(iids).characteristics@[i]
                + needed_shift(*old(iids)) <= u64::MAX,
    ensures
        moved_by(*old(iids), *final(iids), needed_shift(*old(iids))),
        final(iids).information@ == old(iids).information@,
        final(iids).characteristics@.len() == old(iids).characteristics@.len(),
        forall|i: int|
            0 <= i < old(iids).characteristics@.len()
                ==> #[trigger] final(iids).characteristics@[i] - old(iids).characteristics@[i]
                == final(iids).service - old(iids).service,
{
    let new_base: u64 = highest_id(&iids.information) + 1;
    if new_base <= iids.service {
        return;
    }
    let shift: u64 = new_base - iids.service;
    let ghost before = *iids;
    iids.service = new_base;
    let mut i: usize = 0;
    while i < iids.characteristics.len()
        invariant
            i <= iids.characteristics@.len() == before.characteristics@.len(),
            shift == needed_shift(before),
            iids.information@ == before.information@,
            iids.service == before.service + shift,
            forall|j: int|
                0 <= j < before.characteristics@.len() ==> #[trigger] before.characteristics@[j]
                    + shift <= u64::MAX,
            forall|j: int|
                0 <= j < i ==> #[trigger] iids.characteristics@[j] == before.characteristics@[j]
                    + shift,
            forall|j: int|
                i <= j < before.characteristics@.len() ==> #[trigger] iids.characteristics@[j]
                    == before.characteristics@[j],
        decreases iids.characteristics@.len() - i,
    {
        let id: u64 = iids.characteristics[i];
        assert(before.characteristics@[i as int] + shift <= u64::MAX);
        iids.characteristics.set(i, id + shift);
        i += 1;
    }
}

/// No id occurs twice.
pub open spec fn distinct(ids: Seq<u64>) -> bool {
    forall|i: int, j: int| 0 <= i < j < ids.len() ==> ids[i] != ids[j]
}

/// All ids of the characteristics and the lightbulb service.
pub open spec fn all_ids(iids: LightbulbIids) -> Seq<u64> {
    iids.information@ + seq![iids.service] + iids.characteristics@
}

proof fn lemma_highest_bounds(ids: Seq<u64>, i: int)
    requires
        0 <= i < ids.len(),
    ensures
        ids[i] <= highest(ids),
    decreases ids.len(),
{
    if i < ids.len() - 1 {
        lemma_highest_bounds(ids.drop_last(), i);
        assert(ids.drop_last()[i] == ids[i]);
    }
}

/// After the move no id occurs twice, provided that none did within either
/// service and that the characteristics of the lightbulb service followed it.
pub proof fn fixed_iids_are_distinct(iids: LightbulbIids, fixed: LightbulbIids)
    requires
        distinct(iids.information@),
        distinct(iids.characteristics@),
        forall|i: int|
            0 <= i < iids.characteristics@.len() ==> #[trigger] iids.characteristics@[i]
                > iids.service,
        moved_by(iids, fixed, needed_shift(iids)),
    ensures
        distinct(all_ids(fixed)),
{
    let ids = all_ids(fixed);
    let n = fixed.information@.len() as int;
    assert forall|i: int, j: int| 0 <= i < j < ids.len() implies ids[i] != ids[j] by {
        if i < n {
            lemma_highest_bounds(fixed.information@, i);
            assert(ids[i] == iids.information@[i]);
            if j > n {
                assert(ids[j] == fixed.characteristics@[j - n - 1]);
                assert(iids.characteristics@[j - n - 1] > iids.service);
            }
        } else {
            assert(ids[j] == fixed.characteristics@[j - n - 1]);
            assert(iids.characteristics@[j - n - 1] > iids.service);
            if i > n {
                assert(ids[i] == fixed.characteristics@[i - n - 1]);
                assert(iids.characteristics@[i - n - 1] != iids.characteristics@[j - n - 1]);
            }
        }
    }
}

/// After one move, none is needed.
pub proof fn fixed_iids_stay(iids: LightbulbIids, fixed: LightbulbIids)
    requires
        moved_by(iids, fixed, needed_shift(iids)),
    ensures
        needed_shift(fixed) == 0,
{
}

/// The highest of some ids is one of them, and none is higher; where there is none, it
/// is 1.
proof fn lemma_highest_is_one(ids: Seq<u64>)
    ensures
        ids.len() == 0 ==> highest(ids) == 1,
        ids.len() > 0 ==> exists|i: int| 0 <= i < ids.len() && #[trigger] ids[i] == highest(ids),
    decreases ids.len(),
{
    if ids.len() > 0 {
        let before = ids.drop_last();
        if ids.len() == 1 || ids.last() >= highest(before) {
            assert(ids[ids.len() - 1] == highest(ids));
        } else {
            lemma_highest_is_one(before);
            let i = choose|i: int| 0 <= i < before.len() && #[trigger] before[i] == highest(before);
            assert(ids[i] == highest(ids));
        }
    }
}

/// The lightbulb service moves no further than it has to: it stays where it already lies
/// behind every id of the information service, and else comes right behind the highest of
/// them. Without any it comes to 2 at least. Its characteristics move along with it.
pub proof fn service_moves_as_little_as_needed(iids: LightbulbIids, fixed: LightbulbIids, k: int)
    requires
        moved_by(iids, fixed, needed_shift(iids)),
    ensures
        fixed.information@ == iids.information@,
        0 <= k < iids.information@.len() ==> iids.information@[k] < fixed.service,
        fixed.service >= iids.service,
        iids.information@.len() > 0 && fixed.service != iids.service ==> exists|i: int|
            0 <= i < iids.information@.len() && #[trigger] iids.information@[i] + 1
                == fixed.service,
        iids.information@.len() == 0 ==> fixed.service == if iids.service < 2 {
            2
        } else {
            iids.service
        },
        fixed.characteristics@.len() == iids.characteristics@.len(),
        0 <= k < iids.characteristics@.len() ==> fixed.characteristics@[k] - fixed.service
            == iids.characteristics@[k] - iids.service,
{
    lemma_highest_is_one(iids.information@);
    if 0 <= k < iids.information@.len() {
        lemma_highest_bounds(iids.information@, k);
    }
    if iids.information@.len() > 0 {
        let i = choose|i: int|
            0 <= i < iids.information@.len() && #[trigger] iids.information@[i] == highest(
                iids.information@,
            );
        if fixed.service != iids.service {
            assert(iids.information@[i] + 1 == fixed.service);
        }
    }
    if 0 <= k < iids.characteristics@.len() {
        assert(fixed.characteristics@[k] == iids.characteristics@[k] + needed_shift(iids));
    }
}

} // verus!
