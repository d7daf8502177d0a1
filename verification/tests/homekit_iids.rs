//! Instance ids of the lightbulb accessory. Laid out by counting, brightness and
//! firmware revision both come to lie at 10; moving the lightbulb service has to
//! part them.

use led_remote::homekit::{fix_lightbulb_iids, LightbulbIids};

fn build_bulb() -> LightbulbIids {
    LightbulbIids {
        information: vec![2, 3, 4, 5, 6, 10],
        service: 8,
        characteristics: vec![9, 10],
    }
}

fn collect_iids(bulb: &LightbulbIids) -> Vec<u64> {
    let mut iids = Vec::new();
    for id in &bulb.information {
        iids.push(*id);
    }
    for id in &bulb.characteristics {
        iids.push(*id);
    }
    iids
}

fn dupes(mut iids: Vec<u64>) -> Vec<u64> {
    iids.sort();
    iids.windows(2).filter(|w| w[0] == w[1]).map(|w| w[0]).collect()
}

#[test]
fn unpatched_constructor_has_iid_collision() {
    let bulb = build_bulb();
    let dupes = dupes(collect_iids(&bulb));
    assert_eq!(dupes, vec![10], "expected upstream collision at iid=10");
}

#[test]
fn fix_lightbulb_iids_clears_collision() {
    let mut bulb = build_bulb();
    fix_lightbulb_iids(&mut bulb);
    let dupes = dupes(collect_iids(&bulb));
    assert!(dupes.is_empty(), "duplicate iids after fix: {dupes:?}");
}

#[test]
fn whole_service_moves() {
    let mut bulb = build_bulb();
    fix_lightbulb_iids(&mut bulb);
    assert_eq!(bulb.information, [2, 3, 4, 5, 6, 10]);
    assert_eq!(bulb.service, 11);
    assert_eq!(bulb.characteristics, [12, 13]);
    fix_lightbulb_iids(&mut bulb);
    assert_eq!(bulb.service, 11);
    assert_eq!(bulb.characteristics, [12, 13]);
}

#[test]
fn services_behind_the_others_stay() {
    let mut bulb = LightbulbIids { information: vec![2, 7, 3], service: 8, characteristics: vec![9] };
    fix_lightbulb_iids(&mut bulb);
    assert_eq!(bulb.service, 8);
    assert_eq!(bulb.characteristics, [9]);
}

#[test]
fn without_information_the_first_id_is_left_free() {
    let mut bulb = LightbulbIids { information: vec![], service: 1, characteristics: vec![5, 3] };
    fix_lightbulb_iids(&mut bulb);
    assert_eq!(bulb.service, 2);
    assert_eq!(bulb.characteristics, [6, 4]);
}
