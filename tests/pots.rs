use guoql::schema::{Mutations, NoteEdit, Query, UserError};
use guoql::storage::{Eater, Pot, Storage};

fn open_pot(storage: &mut Storage, owner: &str, mian: i32, fan: i32) -> Pot {
    Mutations::new_pot(
        storage,
        "教学楼".to_string(),
        "12:00".to_string(),
        "辣".to_string(),
        owner.to_string(),
        mian,
        fan,
        None,
    )
}

fn eater_tuples(eaters: &[Eater]) -> Vec<(String, i32, i32)> {
    eaters.iter().map(|e| (e.name.clone(), e.mian, e.fan)).collect()
}

#[test]
fn create_join_finish_scenario() {
    let mut s = Storage::new();
    let pot = open_pot(&mut s, "A", 1, 0);
    assert_eq!(pot.id, 1);
    assert_eq!(eater_tuples(&pot.eaters), vec![("A".to_string(), 1, 0)]);

    let pot = Mutations::eat(&mut s, Some(1), None, "B".to_string(), 0, 1).unwrap();
    assert_eq!(
        eater_tuples(&pot.eaters),
        vec![("A".to_string(), 1, 0), ("B".to_string(), 0, 1)]
    );

    let done = Mutations::finish(&mut s, Some(1), None).unwrap();
    assert_eq!(done.id, 1);
    assert!(s.pots.is_empty());
    assert_eq!(s.stats.len(), 2);
    let a = &s.stats[0];
    assert_eq!((a.name.as_str(), a.mian, a.fan, a.eat_count, a.pot_count), ("A", 1, 0, 1, 1));
    let b = &s.stats[1];
    assert_eq!((b.name.as_str(), b.mian, b.fan, b.eat_count, b.pot_count), ("B", 0, 1, 1, 0));
}

#[test]
fn edit_note_clear_and_absent() {
    let mut s = Storage::new();
    let pot = Mutations::new_pot(
        &mut s,
        "教学楼".to_string(),
        "12:00".to_string(),
        "辣".to_string(),
        "A".to_string(),
        1,
        0,
        Some("备注".to_string()),
    );
    let kept = Mutations::edit(&mut s, Some(pot.id), None, None, None, None, NoteEdit::Absent).unwrap();
    assert_eq!(kept.note.as_deref(), Some("备注"));
    let cleared = Mutations::edit(&mut s, Some(pot.id), None, None, None, None, NoteEdit::Clear).unwrap();
    assert_eq!(cleared.note, None);
    assert_eq!(s.pots[0].note, None);
    let set = Mutations::edit(
        &mut s,
        Some(pot.id),
        None,
        Some("食堂".to_string()),
        None,
        Some("不辣".to_string()),
        NoteEdit::Replace("新".to_string()),
    )
    .unwrap();
    assert_eq!(set.position, "食堂");
    assert_eq!(set.time, "12:00");
    assert_eq!(set.taste, "不辣");
    assert_eq!(set.note.as_deref(), Some("新"));
}

#[test]
fn ids_strictly_increase_after_finish() {
    let mut s = Storage::new();
    let a = open_pot(&mut s, "A", 1, 0);
    let b = open_pot(&mut s, "B", 1, 0);
    Mutations::finish(&mut s, Some(b.id), None).unwrap();
    let c = open_pot(&mut s, "C", 1, 0);
    assert!(a.id < b.id && b.id < c.id);
    assert_eq!(c.id, 3);
    assert_eq!(s.counter(), 4);
}

#[test]
fn join_twice_is_already_joined() {
    let mut s = Storage::new();
    open_pot(&mut s, "A", 1, 0);
    let r = Mutations::eat(&mut s, None, Some(0), "A".to_string(), 5, 5);
    assert!(matches!(r, Err(UserError::AlreadyJoined)));
    assert_eq!(eater_tuples(&s.pots[0].eaters), vec![("A".to_string(), 1, 0)]);
}

#[test]
fn unknown_selector_is_not_found() {
    let mut s = Storage::new();
    open_pot(&mut s, "A", 1, 0);
    assert!(matches!(Mutations::eat(&mut s, Some(9), None, "B".to_string(), 0, 0), Err(UserError::NotFound)));
    assert!(matches!(Mutations::finish(&mut s, None, Some(3)), Err(UserError::NotFound)));
    assert!(matches!(Mutations::finish(&mut s, None, Some(-1)), Err(UserError::NotFound)));
    assert!(matches!(Query::pot(&s, None, None), Err(UserError::NotFound)));
    assert!(matches!(Mutations::leave(&mut s, None, None, "A".to_string()), Err(UserError::NotFound)));
    assert_eq!(s.pots.len(), 1);
}

#[test]
fn id_wins_over_index() {
    let mut s = Storage::new();
    open_pot(&mut s, "A", 1, 0);
    open_pot(&mut s, "B", 2, 0);
    let p = Query::pot(&s, Some(2), Some(0)).unwrap();
    assert_eq!(p.eaters[0].name, "B");
    let q = Query::pot(&s, None, Some(0)).unwrap();
    assert_eq!(q.eaters[0].name, "A");
    assert!(matches!(Query::pot(&s, Some(7), Some(0)), Err(UserError::NotFound)));
}

#[test]
fn leave_absent_name_keeps_eaters() {
    let mut s = Storage::new();
    open_pot(&mut s, "A", 1, 0);
    Mutations::eat(&mut s, Some(1), None, "B".to_string(), 0, 1).unwrap();
    let p = Mutations::leave(&mut s, Some(1), None, "Z".to_string()).unwrap();
    assert_eq!(eater_tuples(&p.eaters), vec![("A".to_string(), 1, 0), ("B".to_string(), 0, 1)]);
    let p = Mutations::leave(&mut s, Some(1), None, "A".to_string()).unwrap();
    assert_eq!(eater_tuples(&p.eaters), vec![("B".to_string(), 0, 1)]);
}

#[test]
fn edit_demand_changes_given_fields() {
    let mut s = Storage::new();
    open_pot(&mut s, "A", 1, 2);
    let p = Mutations::edit_demand(&mut s, Some(1), None, "A".to_string(), Some(4), None).unwrap();
    assert_eq!(eater_tuples(&p.eaters), vec![("A".to_string(), 4, 2)]);
    let r = Mutations::edit_demand(&mut s, Some(1), None, "B".to_string(), Some(1), Some(1));
    assert!(matches!(r, Err(UserError::NotInPot)));
    assert_eq!(eater_tuples(&s.pots[0].eaters), vec![("A".to_string(), 4, 2)]);
}

#[test]
fn clear_folds_every_pot() {
    let mut s = Storage::new();
    open_pot(&mut s, "A", 1, 0);
    open_pot(&mut s, "B", 0, 2);
    Mutations::eat(&mut s, Some(2), None, "A".to_string(), 3, 0).unwrap();
    let r = Mutations::clear(&mut s);
    assert!(r.is_empty());
    assert!(s.pots.is_empty());
    let a = &s.stats[0];
    assert_eq!((a.name.as_str(), a.mian, a.fan, a.eat_count, a.pot_count), ("A", 4, 0, 2, 1));
    let b = &s.stats[1];
    assert_eq!((b.name.as_str(), b.mian, b.fan, b.eat_count, b.pot_count), ("B", 0, 2, 1, 1));
}

#[test]
fn stats_ranked_and_cut() {
    let mut s = Storage::new();
    open_pot(&mut s, "A", 1, 0);
    open_pot(&mut s, "B", 1, 0);
    Mutations::eat(&mut s, Some(2), None, "C".to_string(), 1, 0).unwrap();
    Mutations::eat(&mut s, Some(1), None, "C".to_string(), 1, 0).unwrap();
    Mutations::finish(&mut s, Some(1), None).unwrap();
    Mutations::finish(&mut s, Some(2), None).unwrap();
    let all = Query::stats(&s, None);
    assert_eq!(all.len(), 3);
    assert_eq!(all[0].name, "C");
    assert_eq!(all[0].eat_count, 2);
    let top = Query::stats(&s, Some(1));
    assert_eq!(top.len(), 1);
    assert_eq!(top[0].name, "C");
    assert_eq!(Query::stats(&s, Some(-1)).len(), 3);
    assert_eq!(Query::stats(&s, Some(0)).len(), 0);
}

#[test]
fn pot_totals_and_getters() {
    let mut s = Storage::new();
    open_pot(&mut s, "A", 1, 2);
    Mutations::eat(&mut s, Some(1), None, "B".to_string(), 3, 4).unwrap();
    let pots = Query::pots(&s);
    assert_eq!(pots.len(), 1);
    let p = &pots[0];
    assert_eq!(p.mian(), 4);
    assert_eq!(p.fan(), 6);
    assert_eq!(p.id(), 1);
    assert_eq!(p.position(), "教学楼");
    assert_eq!(p.time(), "12:00");
    assert_eq!(p.taste(), "辣");
    assert_eq!(p.note(), None);
    assert_eq!(p.eaters().len(), 2);
    assert_eq!(p.eaters()[1].name(), "B");
    assert_eq!(p.eaters()[1].mian(), 3);
    assert_eq!(p.eaters()[1].fan(), 4);
    let st = &s.stats[0];
    assert_eq!((st.name(), st.mian(), st.fan(), st.eat_count(), st.pot_count()), ("A", 0, 0, 0, 1));
}

#[test]
fn stats_entry_is_created_once() {
    let mut s = Storage::new();
    s.stats_mut("X").mian = 5;
    s.stats_mut("X").fan = 1;
    assert_eq!(s.stats.len(), 1);
    assert_eq!((s.stats[0].mian, s.stats[0].fan), (5, 1));
    assert!(s.pot(None, None).is_none());
    open_pot(&mut s, "A", 0, 0);
    if let Some(p) = s.pot_mut(Some(1), None) {
        p.taste = "甜".to_string();
    }
    assert_eq!(s.pot(None, Some(0)).unwrap().taste, "甜");
}

#[test]
fn overflow_checks_before_folding() {
    let mut s = Storage::new();
    open_pot(&mut s, "A", 1, 0);
    assert!(Mutations::finish_fits(&s, Some(1), None));
    assert!(Mutations::clear_fits(&s));
    assert!(Mutations::finish_fits(&s, Some(5), None));
    s.stats_mut("A").mian = i32::MAX;
    assert!(!Mutations::finish_fits(&s, Some(1), None));
    assert!(!Mutations::clear_fits(&s));
    assert!(Mutations::new_pot_fits(&s, &"A".to_string()));
    s.stats_mut("A").pot_count = i32::MAX;
    assert!(!Mutations::new_pot_fits(&s, &"A".to_string()));
    assert!(Mutations::new_pot_fits(&s, &"B".to_string()));
    assert_eq!(s.stats[0].mian, i32::MAX);
    assert_eq!(s.stats.len(), 1);
}

#[test]
fn rebuilt_store_keeps_counter() {
    let s = Storage::from_parts(7, Vec::new(), Vec::new());
    assert_eq!(s.last_id(), 7);
    let mut s = s;
    assert!(!Mutations::new_pot_fits(&Storage::from_parts(i32::MAX, Vec::new(), Vec::new()), &"A".to_string()));
    let p = open_pot(&mut s, "A", 0, 0);
    assert_eq!(p.id, 8);
    assert_eq!(s.last_id(), 8);
}

#[test]
fn new_store_is_empty() {
    let mut s = Storage::new();
    assert_eq!(s.last_id(), 0);
    assert!(s.pots.is_empty() && s.stats.is_empty());
    assert!(Query::pots(&s).is_empty());
    assert!(Query::stats(&s, None).is_empty());
    assert_eq!(s.counter(), 1);
    assert_eq!(Storage::default().last_id(), 0);
}
