use ship_alive::items::ItemKind;
use ship_alive::production::{recipe, Fabricator, MachineState, Order, INPUT_CAP, OUTPUT_CAP};

fn fab_with_order(batches: u32, ore: u32) -> Fabricator {
    let mut f = Fabricator { order: Some(Order { batches, repeat: false }), ..Fabricator::default() };
    f.input[ItemKind::Ore.index()] = ore;
    f
}

#[test]
fn no_input_no_work() {
    let mut f = fab_with_order(2, 1);
    assert_eq!(f.state(), MachineState::WaitingInput);
    assert!(!f.ready_to_work());
    f.input[ItemKind::Ore.index()] = 2;
    assert_eq!(f.state(), MachineState::WaitingWorker);
    assert!(f.ready_to_work());
}

#[test]
fn cycle_consumes_input_and_counts_down() {
    let mut f = fab_with_order(2, 2);
    f.active = true;
    assert_eq!(f.state(), MachineState::Working);
    let out = f.finish_cycle();
    assert_eq!(out, ItemKind::Part);
    assert_eq!(f.input[ItemKind::Ore.index()], 0);
    assert_eq!(f.output[ItemKind::Part.index()], 1);
    assert_eq!(f.order.unwrap().batches, 1);
    assert!(!f.active);
}

#[test]
fn output_blocked_stops_cycles() {
    let mut f = fab_with_order(3, 4);
    f.output[ItemKind::Part.index()] = OUTPUT_CAP - recipe().out_qty + 1;
    assert_eq!(f.state(), MachineState::OutputBlocked);
    assert!(!f.ready_to_work());
    assert_eq!(f.input_want(0), 0, "no more supply while blocked");
}

#[test]
fn repeat_mode_keeps_order_and_caps_supply() {
    let mut f = Fabricator { order: Some(Order { batches: 0, repeat: true }), ..Fabricator::default() };
    f.input[ItemKind::Ore.index()] = 2;
    assert_eq!(f.input_want(0), INPUT_CAP - 2);
    f.finish_cycle();
    assert!(f.order.unwrap().repeat);
}

#[test]
fn aborting_a_cycle_keeps_material() {
    let mut f = fab_with_order(1, 2);
    f.active = true;
    f.abort_cycle();
    assert_eq!(f.input[ItemKind::Ore.index()], 2);
    assert_eq!(f.state(), MachineState::WaitingWorker);
}

#[test]
fn input_want_respects_batches_and_inbound() {
    let f = fab_with_order(2, 1);
    assert_eq!(f.input_want(0), 3); // 2 batches * 2 ore - 1 stored
    assert_eq!(f.input_want(2), 1);
    assert_eq!(f.input_want(9), 0);
}

#[test]
fn last_batch_clears_the_order() {
    let mut f = fab_with_order(1, 2);
    f.finish_cycle();
    assert!(f.order.is_none());
    assert_eq!(f.state(), MachineState::NoOrder);
    assert_eq!(f.input_want(0), 0);
}

#[test]
fn machine_state_labels() {
    assert_eq!(MachineState::OutputBlocked.label(), "Output blocked — haul parts away");
    assert!(MachineState::OutputBlocked.blocked());
    assert!(!MachineState::Working.blocked());
}

#[test]
fn loading_and_receiving_count_one_unit() {
    let mut f = ship_alive::production::Fabricator::default();
    f.load(ship_alive::items::ItemKind::Ore);
    f.load(ship_alive::items::ItemKind::Ore);
    assert_eq!(f.input, [0, 2, 0]);
    let d = ship_alive::building::def(ship_alive::building::BuildingKind::Door);
    let mut bp = ship_alive::building::Blueprint {
        kind: ship_alive::building::BuildingKind::Door,
        foot: ship_alive::building::Footprint::new(1, 1, d.w, d.h),
        delivered: [0, 0, 0],
        progress: 0,
    };
    bp.receive(ship_alive::items::ItemKind::Part);
    assert_eq!(bp.delivered, [0, 0, 1]);
    assert_eq!(bp.materials_label(), "part 1/2");
    assert!(!bp.fully_supplied());
    bp.receive(ship_alive::items::ItemKind::Part);
    assert!(bp.fully_supplied());
}
