use std::collections::HashMap;

use vram_booster::booster::{
    slice_settings, Booster, FocusAction, FocusEvent, SliceNext, SliceSetting, SliceState,
    WriteOutcome,
};
use vram_booster::dmem::{dmem_entry, dmem_low_has_value};

const KEY: &str = "drm/0000:2d:00.0/vram";
const MANAGER: &str = "/sys/fs/cgroup/user.slice/user-1000.slice/user@1000.service";

/// Dmem files held in memory, by path.
struct Files(HashMap<String, String>);

impl Files {
    fn value(&self, file: &str) -> Option<String> {
        self.0.get(file).and_then(|c| dmem_entry(c, KEY))
    }

    fn write(&mut self, file: &str, body: String) -> Result<WriteOutcome, ()> {
        match self.0.get_mut(file) {
            Some(c) => {
                *c = body;
                Ok(WriteOutcome::Wrote)
            }
            None => Ok(WriteOutcome::Missing),
        }
    }
}

fn ensure_slices(b: &mut Booster, files: &mut Files, manager: &str) {
    for i in 0..b.slice_count() {
        let dir = b.slice_dir(manager, i);
        let file = format!("{dir}/{}", b.slice(i).file);
        let state = match b.on_slice_value(i, files.value(&file).as_deref()) {
            SliceNext::Settled(s) => s,
            SliceNext::Write => {
                let line = b.slice_write_line(i);
                match b.on_slice_written(files.write(&file, line)) {
                    SliceNext::Settled(s) => s,
                    SliceNext::Verify => b.on_slice_verified(i, files.value(&file).as_deref()),
                    SliceNext::Write => unreachable!(),
                }
            }
            SliceNext::Verify => unreachable!(),
        };
        b.record_slice(dir, i, state);
    }
}

fn restore_slices(b: &mut Booster, files: &mut Files) {
    for rec in b.take_slice_records() {
        let file = format!("{}/{}", rec.dir, b.slice(rec.index).file);
        if b.should_restore(rec.index, files.value(&file).as_deref()) {
            let line = b.slice_restore_line(rec.index);
            let _ = files.write(&file, line);
        }
    }
}

fn new_booster() -> Booster {
    let slices = slice_settings(true, 1000, Some(900));
    Booster::new(KEY.to_string(), 1000, 900, slices)
}

fn states(b: &Booster) -> Vec<Option<SliceState>> {
    (0..b.slice_count())
        .map(|i| b.slice_state(&b.slice_dir(MANAGER, i), i))
        .collect()
}

#[test]
fn slice_settings_in_order() {
    let s = slice_settings(true, 1000, Some(900));
    assert_eq!(s.len(), 2);
    assert_eq!((s[0].slice, s[0].file, s[0].unset, s[0].value), ("session.slice", "dmem.low", "0", 1000));
    assert_eq!((s[1].slice, s[1].file, s[1].unset, s[1].value), ("app.slice", "dmem.max", "max", 900));
    assert_eq!(slice_settings(false, 1000, None).len(), 0);
    let c = SliceSetting::ceiling(5);
    assert_eq!(c.what, "the ceiling on app.slice");
    let p = SliceSetting::session_protection(6);
    assert_eq!(p.what, "the protection of session.slice");
}

#[test]
fn a_slice_setting_goes_only_where_nobody_else_set_one() {
    let mut b = new_booster();
    let mut files = Files(HashMap::new());
    let low = format!("{MANAGER}/session.slice/dmem.low");
    let max = format!("{MANAGER}/app.slice/dmem.max");

    // no such files yet: nothing is written
    ensure_slices(&mut b, &mut files, MANAGER);
    assert!(files.0.is_empty());
    assert_eq!(states(&b), vec![Some(SliceState::Unknown), Some(SliceState::Unknown)]);

    files.0.insert(low.clone(), format!("{KEY} 0\n"));
    files.0.insert(max.clone(), format!("{KEY} max\n"));
    ensure_slices(&mut b, &mut files, MANAGER);
    assert_eq!(files.0[&low], format!("{KEY} 1000\n"));
    assert_eq!(files.0[&max], format!("{KEY} 900\n"));
    assert_eq!(states(&b), vec![Some(SliceState::Held), Some(SliceState::Held)]);

    restore_slices(&mut b, &mut files);
    assert_eq!(files.0[&low], format!("{KEY} 0\n"));
    assert_eq!(files.0[&max], format!("{KEY} max\n"));
    assert_eq!(states(&b), vec![None, None]);

    files.0.insert(low.clone(), format!("{KEY} 500\n"));
    files.0.insert(max.clone(), format!("{KEY} 500\n"));
    ensure_slices(&mut b, &mut files, MANAGER);
    assert_eq!(states(&b), vec![Some(SliceState::Foreign), Some(SliceState::Foreign)]);
    restore_slices(&mut b, &mut files);
    assert_eq!(files.0[&low], format!("{KEY} 500\n"));
    assert_eq!(files.0[&max], format!("{KEY} 500\n"));
}

#[test]
fn slice_write_results() {
    let b = new_booster();
    assert_eq!(b.on_slice_written(Ok(WriteOutcome::Wrote)), SliceNext::Verify);
    assert_eq!(b.on_slice_written(Ok(WriteOutcome::Missing)), SliceNext::Settled(SliceState::Unknown));
    assert_eq!(b.on_slice_written(Ok(WriteOutcome::TimedOut)), SliceNext::Settled(SliceState::Unknown));
    assert_eq!(b.on_slice_written(Err(())), SliceNext::Settled(SliceState::Failed));
    assert_eq!(b.on_slice_verified(1, Some("max")), SliceState::Refused);
    assert_eq!(b.on_slice_verified(1, Some("900")), SliceState::Held);
    assert_eq!(b.on_slice_value(0, Some("1000")), SliceNext::Settled(SliceState::Held));
}

#[test]
fn recorded_state_replaces_the_old_one() {
    let mut b = new_booster();
    assert_eq!(b.record_slice("a".to_string(), 0, SliceState::Failed), SliceState::Unknown);
    assert_eq!(b.record_slice("a".to_string(), 1, SliceState::Held), SliceState::Unknown);
    assert_eq!(b.record_slice("a".to_string(), 0, SliceState::Held), SliceState::Failed);
    assert_eq!(b.slice_state("a", 0), Some(SliceState::Held));
    assert_eq!(b.slice_state("a", 1), Some(SliceState::Held));
    assert_eq!(b.slice_state("b", 0), None);
    assert_eq!(b.take_slice_records().len(), 2);
}

#[test]
fn slice_value_by_file() {
    let b = new_booster();
    assert_eq!(b.slice_value("dmem.max"), 900);
    assert_eq!(b.slice_value("dmem.low"), 1000);
    let none = Booster::new(KEY.to_string(), 1000, 900, Vec::new());
    assert_eq!(none.slice_value("dmem.max"), 0);
}

/// Runs a focus change as the daemon does, on files held in memory.
fn handle_focus(
    b: &mut Booster,
    files: &mut Files,
    caller: u32,
    cgroup: Option<String>,
) -> (bool, Vec<String>) {
    let mut trace = Vec::new();
    let mut event = FocusEvent::Begin;
    loop {
        match b.focus_step(caller, &cgroup, event) {
            FocusAction::EnsureSlices(m) => {
                trace.push(format!("ensure {m}"));
                ensure_slices(b, files, &m);
                event = FocusEvent::SlicesEnsured;
            }
            FocusAction::CheckBoost(dir) => {
                trace.push(format!("check {dir}"));
                event = FocusEvent::BoostFile(files.0.get(&format!("{dir}/dmem.low")).cloned());
            }
            FocusAction::TakeBack => {
                trace.push("take back".to_string());
                if let Some(prev) = b.take_previous() {
                    let line = b.low_line(0);
                    let _ = files.write(&format!("{prev}/dmem.low"), line);
                }
                event = FocusEvent::TakenBack;
            }
            FocusAction::WriteBoost(dir) => {
                trace.push(format!("write {dir}"));
                let line = b.low_line(b.boosted_bytes());
                event = FocusEvent::Written(files.write(&format!("{dir}/dmem.low"), line));
            }
            FocusAction::Finish(held) => return (held, trace),
        }
    }
}

#[test]
fn focus_moves_the_boost() {
    let mut b = new_booster();
    let mut files = Files(HashMap::new());
    let a = format!("{MANAGER}/app.slice/app-a.scope");
    let c = format!("{MANAGER}/app.slice/app-c.scope");
    for dir in [&a, &c] {
        files.0.insert(format!("{dir}/dmem.low"), format!("{KEY} 0\n"));
    }

    let (held, trace) = handle_focus(&mut b, &mut files, 1000, Some(a.clone()));
    assert!(held);
    assert_eq!(trace, vec![format!("ensure {MANAGER}"), "take back".to_string(), format!("write {a}")]);
    assert_eq!(b.prev_cgroup(), a);
    assert_eq!(b.current_unit(), "app-a.scope");
    assert!(dmem_low_has_value(&files.0[&format!("{a}/dmem.low")], KEY, 900));

    // same cgroup, file still holds the boost: no write
    let (held, trace) = handle_focus(&mut b, &mut files, 1000, Some(a.clone()));
    assert!(held);
    assert_eq!(trace, vec![format!("ensure {MANAGER}"), format!("check {a}")]);

    // reverted from outside: written again, without taking anything back
    files.0.insert(format!("{a}/dmem.low"), format!("{KEY} 0\n"));
    let (held, trace) = handle_focus(&mut b, &mut files, 1000, Some(a.clone()));
    assert!(held);
    assert_eq!(trace, vec![format!("ensure {MANAGER}"), format!("check {a}"), format!("write {a}")]);

    // another app: the first one's boost goes back to 0
    let (held, _) = handle_focus(&mut b, &mut files, 1000, Some(c.clone()));
    assert!(held);
    assert_eq!(files.0[&format!("{a}/dmem.low")], format!("{KEY} 0\n"));
    assert_eq!(files.0[&format!("{c}/dmem.low")], format!("{KEY} 900\n"));
    assert_eq!(b.current_unit(), "app-c.scope");

    // nothing boostable: taken back, not held
    let (held, trace) = handle_focus(&mut b, &mut files, 1000, None);
    assert!(!held);
    assert_eq!(trace, vec!["take back".to_string()]);
    assert_eq!(files.0[&format!("{c}/dmem.low")], format!("{KEY} 0\n"));
    assert_eq!(b.prev_cgroup(), "");
    assert_eq!(b.current_unit(), "");
}

#[test]
fn failed_boost_is_not_recorded() {
    let mut b = new_booster();
    let mut files = Files(HashMap::new());
    let gone = format!("{MANAGER}/app.slice/gone.scope");
    let (held, trace) = handle_focus(&mut b, &mut files, 1000, Some(gone.clone()));
    assert!(!held);
    assert_eq!(trace, vec![format!("ensure {MANAGER}"), "take back".to_string(), format!("write {gone}")]);
    assert_eq!(b.prev_cgroup(), "");
    assert!(matches!(
        b.focus_step(1000, &Some(gone.clone()), FocusEvent::Written(Err(()))),
        FocusAction::Finish(false)
    ));
}

#[test]
fn sessions_reach_only_their_own_users_units() {
    let mut b = new_booster();
    let mut files = Files(HashMap::new());
    let mine = format!("{MANAGER}/app.slice/app-a.scope");
    files.0.insert(format!("{mine}/dmem.low"), format!("{KEY} 0
"));
    // user 1001 cannot boost a unit of user 1000
    let (held, trace) = handle_focus(&mut b, &mut files, 1001, Some(mine.clone()));
    assert!(!held);
    assert!(trace.is_empty());
    assert_eq!(files.0[&format!("{mine}/dmem.low")], format!("{KEY} 0
"));
    // nor one of its own slice's name nested in another user's slice
    let nested = "/sys/fs/cgroup/user.slice/user-1001.slice/app.slice/user-1000.slice/b.scope".to_string();
    files.0.insert(format!("{nested}/dmem.low"), format!("{KEY} 0\n"));
    let (held, trace) = handle_focus(&mut b, &mut files, 1000, Some(nested.clone()));
    assert!(!held);
    assert!(trace.is_empty());
    assert_eq!(files.0[&format!("{nested}/dmem.low")], format!("{KEY} 0\n"));
    // a unit outside any user slice is not boostable either
    let (held, _) = handle_focus(&mut b, &mut files, 1000, Some("/sys/fs/cgroup/app.slice/x.scope".to_string()));
    assert!(!held);

    let (held, _) = handle_focus(&mut b, &mut files, 1000, Some(mine.clone()));
    assert!(held);
    // another user's session losing the focus leaves the boost alone
    let (held, trace) = handle_focus(&mut b, &mut files, 1001, None);
    assert!(!held);
    assert!(trace.is_empty());
    assert_eq!(b.prev_cgroup(), mine);
    assert_eq!(b.release_for(1001), None);
    assert_eq!(b.prev_cgroup(), mine);
    // the holder's own session can take it back
    assert_eq!(b.release_for(1000), Some(mine.clone()));
    assert_eq!(b.prev_cgroup(), "");
    assert_eq!(b.current_unit(), "");
}

#[test]
fn boost_lines() {
    let b = new_booster();
    assert_eq!(b.low_line(0), format!("{KEY} 0\n"));
    assert_eq!(b.slice_write_line(1), format!("{KEY} 900\n"));
    assert_eq!(b.slice_restore_line(1), format!("{KEY} max\n"));
    assert_eq!(b.slice_dir("/m", 0), "/m/session.slice");
    assert_eq!(b.drm_key(), KEY);
    assert_eq!(b.vram_total(), 1000);
}
