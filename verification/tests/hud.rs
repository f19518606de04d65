use mmd_engine::rts::entity::{BuildingKind, EntityKind, ResourceKind, UnitKind};
use mmd_engine::rts::hud::{
    command_slots, control_id_from_modal_hit, control_visual_state, fmt_ratio, fmt_u32, kind_label, CommandId,
    CommandSlot, ControlId, ControlVisualState, InteractionSnapshot, ModalHit, NUM_BUF,
};

#[test]
fn numbers_format_without_allocating() {
    let mut buf = [0u8; NUM_BUF];
    assert_eq!(fmt_u32(&mut buf, 0), "0");
    assert_eq!(fmt_u32(&mut buf, 1234), "1234");
    assert_eq!(fmt_u32(&mut buf, u32::MAX), "4294967295");
    assert_eq!(fmt_ratio(&mut buf, 7, 200), "7/200");
    assert_eq!(fmt_ratio(&mut buf, 0, 0), "0/0");
}

#[test]
fn visual_state_precedence() {
    let id = ControlId::Menu;
    let both = InteractionSnapshot { hovered: Some(id), pressed: Some(id) };
    assert_eq!(control_visual_state(id, &both, true, true), ControlVisualState::Disabled);
    assert_eq!(control_visual_state(id, &both, true, false), ControlVisualState::Pressed);
    let hover = InteractionSnapshot { hovered: Some(id), pressed: None };
    assert_eq!(control_visual_state(id, &hover, true, false), ControlVisualState::Hover);
    assert_eq!(control_visual_state(id, &InteractionSnapshot::none(), true, false), ControlVisualState::Selected);
    assert_eq!(control_visual_state(id, &InteractionSnapshot::none(), false, false), ControlVisualState::Idle);
    let other = InteractionSnapshot { hovered: Some(ControlId::Grid), pressed: Some(ControlId::Grid) };
    assert_eq!(control_visual_state(id, &other, false, false), ControlVisualState::Idle);
}

#[test]
fn labels_and_modal_hits() {
    assert_eq!(kind_label(EntityKind::Unit(UnitKind::Worker)), "WORKER");
    assert_eq!(kind_label(EntityKind::Building(BuildingKind::Barracks)), "BARRACKS");
    assert_eq!(kind_label(EntityKind::Node(ResourceKind::Gas)), "GAS");
    assert_eq!(kind_label(EntityKind::Unit(UnitKind::Ghoul)), "GHOUL");
    assert_eq!(kind_label(EntityKind::Building(BuildingKind::Turret)), "TURRET");
    assert_eq!(control_id_from_modal_hit(ModalHit::WindowMode(2)), Some(ControlId::WindowMode(2)));
    assert_eq!(control_id_from_modal_hit(ModalHit::Master(40)), Some(ControlId::MasterSlider));
    assert_eq!(control_id_from_modal_hit(ModalHit::Consumed), None);
}

#[test]
fn the_command_card_follows_the_selection() {
    let empty = CommandSlot { command: None, enabled: false };
    let on = |c| CommandSlot { command: Some(c), enabled: true };
    let workers = command_slots(&[(EntityKind::Unit(UnitKind::Worker), true), (EntityKind::Unit(UnitKind::Worker), true)]);
    assert_eq!(workers[0], on(CommandId::BuildHq));
    assert_eq!(workers[1], on(CommandId::BuildDepot));
    assert_eq!(workers[2], on(CommandId::BuildBarracks));
    assert_eq!(workers[3], empty);
    let hq = command_slots(&[(EntityKind::Building(BuildingKind::Hq), true)]);
    assert_eq!(hq[0], on(CommandId::TrainWorker));
    assert_eq!(hq[8], on(CommandId::SetRally));
    let site = command_slots(&[(EntityKind::Building(BuildingKind::Barracks), false)]);
    assert_eq!(site, [empty; 9]);
    let mixed = command_slots(&[(EntityKind::Unit(UnitKind::Worker), true), (EntityKind::Unit(UnitKind::Soldier), true)]);
    assert_eq!(mixed, [empty; 9]);
    assert_eq!(command_slots(&[]), [empty; 9]);
}
