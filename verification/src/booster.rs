use vstd::prelude::*;

use crate::cgroup::{
    in_user_slice, is_users_cgroup, last_component, law_user_slices_are_disjoint, unit_label, user_manager, user_manager_spec,
};
use crate::dmem::{
    dmem_entry_spec, dmem_line, dmem_line_spec, dmem_low_has_value, has_value_spec,
    law_written_boost_recognised, law_written_value_read_back,
};
use crate::text::{
    chars_of, decimal, decimal_string, is_word, lemma_decimal_is_word, push_all, str_eq, string_of,
};

verus! {

// ---------------------------------------------------------------------------
// The slice settings.
// ---------------------------------------------------------------------------

/// What a dmem write did, so a caller can tell a cgroup that has no such
/// file from one whose write did not finish in time.
#[derive(Clone, Copy, Debug, PartialEq, Eq, Structural)]
pub enum WriteOutcome {
    Wrote,
    Missing,
    TimedOut,
}

/// Where a slice setting on one user's slice stands, as last seen.
#[derive(Clone, Copy, Debug, PartialEq, Eq, Structural)]
pub enum SliceState {
    /// The slice has no such file for the GPU, or the write did not finish.
    Unknown,
    /// The slice holds this daemon's value.
    Held,
    /// Written, but the old value stayed: a kernel before 7.3 refuses a
    /// dmem.max below what the slice already uses, without an error.
    Refused,
    /// The write failed.
    Failed,
    /// The slice has a value of someone else's, which is left alone.
    Foreign,
}

/// A dmem value the daemon keeps on a slice of every user whose app it
/// boosts: the protection of session.slice, or the ceiling on app.slice. It
/// is written only where the file holds its unset value, left alone where
/// someone else set it, and put back at exit while it is still the daemon's.
pub struct SliceSetting {
    /// What it is, for the log.
    pub what: &'static str,
    /// The slice, below `user@<uid>.service`.
    pub slice: &'static str,
    pub file: &'static str,
    /// What the file holds when nobody set it.
    pub unset: &'static str,
    pub value: u64,
}

impl SliceSetting {
    /// The protection of session.slice: `dmem.low` set to `value`, unset `0`.
    pub fn session_protection(value: u64) -> (s: Self)
        ensures
            setting_view(s) == protection_spec(value),
    {
        SliceSetting {
            what: "the protection of session.slice",
            slice: "session.slice",
            file: "dmem.low",
            unset: "0",
            value,
        }
    }

    /// The ceiling on app.slice: `dmem.max` set to `value`, unset `max`.
    pub fn ceiling(value: u64) -> (s: Self)
        ensures
            setting_view(s) == ceiling_setting_spec(value),
    {
        SliceSetting {
            what: "the ceiling on app.slice",
            slice: "app.slice",
            file: "dmem.max",
            unset: "max",
            value,
        }
    }
}

/// A slice setting as text and number.
pub struct SettingView {
    pub what: Seq<char>,
    pub slice: Seq<char>,
    pub file: Seq<char>,
    pub unset: Seq<char>,
    pub value: u64,
}

/// A slice setting as text and number.
pub open spec fn setting_view(s: SliceSetting) -> SettingView {
    SettingView { what: s.what@, slice: s.slice@, file: s.file@, unset: s.unset@, value: s.value }
}

/// The protection of session.slice at `value`.
pub open spec fn protection_spec(value: u64) -> SettingView {
    SettingView {
        what: "the protection of session.slice"@,
        slice: "session.slice"@,
        file: "dmem.low"@,
        unset: "0"@,
        value,
    }
}

/// The ceiling on app.slice at `value`.
pub open spec fn ceiling_setting_spec(value: u64) -> SettingView {
    SettingView {
        what: "the ceiling on app.slice"@,
        slice: "app.slice"@,
        file: "dmem.max"@,
        unset: "max"@,
        value,
    }
}

/// The settings the daemon keeps: the protection of session.slice at the
/// whole VRAM when asked for, then the ceiling on app.slice when there is one.
pub open spec fn settings_spec(protect_session: bool, vram_total: u64, ceiling: Option<u64>) -> Seq<
    SettingView,
> {
    let p: Seq<SettingView> = if protect_session {
        seq![protection_spec(vram_total)]
    } else {
        seq![]
    };
    match ceiling {
        Some(c) => p.push(ceiling_setting_spec(c)),
        None => p,
    }
}

/// A list of settings as text and numbers.
pub open spec fn settings_view(v: Seq<SliceSetting>) -> Seq<SettingView> {
    Seq::new(v.len(), |i: int| setting_view(v[i]))
}

/// The settings the daemon keeps: the protection of session.slice at
/// `vram_total` when `protect_session`, then the ceiling on app.slice when
/// there is one.
pub fn slice_settings(protect_session: bool, vram_total: u64, ceiling: Option<u64>) -> (v: Vec<
    SliceSetting,
>)
    ensures
        settings_view(v@) == settings_spec(protect_session, vram_total, ceiling),
{
    let mut v: Vec<SliceSetting> = Vec::new();
    if protect_session {
        v.push(SliceSetting::session_protection(vram_total));
    }
    match ceiling {
        Some(c) => {
            v.push(SliceSetting::ceiling(c));
        },
        None => {},
    }
    proof {
        assert(settings_view(v@) =~= settings_spec(protect_session, vram_total, ceiling));
    }
    v
}

// ---------------------------------------------------------------------------
// The daemon's state.
// ---------------------------------------------------------------------------

/// A slice setting's state on one slice directory.
pub struct SliceRecord {
    pub dir: String,
    /// The setting's position among the daemon's settings.
    pub index: usize,
    pub state: SliceState,
}

/// A slice record as text, position and state.
pub type RecordView = (Seq<char>, nat, SliceState);

/// The records of a list, as text, position and state.
pub open spec fn records_view(v: Seq<SliceRecord>) -> Seq<RecordView> {
    Seq::new(v.len(), |i: int| (v[i].dir@, v[i].index as nat, v[i].state))
}

/// The position of the (last) record for `dir` and setting `i`.
pub open spec fn find_record(rs: Seq<RecordView>, dir: Seq<char>, i: nat) -> Option<int>
    decreases rs.len(),
{
    if rs.len() == 0 {
        None
    } else if rs.last().0 == dir && rs.last().1 == i {
        Some(rs.len() - 1)
    } else {
        find_record(rs.drop_last(), dir, i)
    }
}

/// The state last recorded for setting `i` on `dir`.
pub open spec fn lookup_state(rs: Seq<RecordView>, dir: Seq<char>, i: nat) -> Option<SliceState> {
    match find_record(rs, dir, i) {
        Some(j) => Some(rs[j].2),
        None => None,
    }
}

/// The records with the state of setting `i` on `dir` set to `s`: that
/// record updated in place, or a new one appended.
pub open spec fn upsert(rs: Seq<RecordView>, dir: Seq<char>, i: nat, s: SliceState) -> Seq<
    RecordView,
> {
    match find_record(rs, dir, i) {
        Some(j) => rs.update(j, (dir, i, s)),
        None => rs.push((dir, i, s)),
    }
}

pub proof fn lemma_find_record_in_range(rs: Seq<RecordView>, dir: Seq<char>, i: nat)
    ensures
        find_record(rs, dir, i) matches Some(j) ==> 0 <= j < rs.len() && rs[j].0 == dir && rs[j].1
            == i,
        find_record(rs, dir, i) is None ==> forall|j: int|
            0 <= j < rs.len() ==> !(#[trigger] rs[j].0 == dir && rs[j].1 == i),
    decreases rs.len(),
{
    if rs.len() > 0 {
        lemma_find_record_in_range(rs.drop_last(), dir, i);
        if !(rs.last().0 == dir && rs.last().1 == i) {
            assert forall|j: int| 0 <= j < rs.len() - 1 implies rs[j] == rs.drop_last()[j] by {}
        }
    }
}

/// The daemon's state, as text and numbers.
pub struct BoosterView {
    /// The cgroup holding the boost this daemon gave, if any.
    pub prev: Option<Seq<char>>,
    /// The user whose session was given that boost.
    pub holder: Option<u32>,
    /// The unit of that cgroup, or empty.
    pub unit: Seq<char>,
    pub key: Seq<char>,
    pub vram_total: u64,
    /// The boost, in bytes.
    pub boost: u64,
    pub slices: Seq<SliceSetting>,
    pub records: Seq<RecordView>,
}

/// The daemon's state: which cgroup holds its boost, the GPU and the boost,
/// the slice settings it keeps, and where each stands on each slice seen.
pub struct Booster {
    prev_cgroup: Option<String>,
    holder: Option<u32>,
    current_unit: String,
    drm_key: String,
    vram_total: u64,
    boost: u64,
    slices: Vec<SliceSetting>,
    slice_states: Vec<SliceRecord>,
}

/// The text of an optional string.
pub open spec fn opt_view(o: Option<String>) -> Option<Seq<char>> {
    match o {
        Some(s) => Some(s@),
        None => None,
    }
}

impl View for Booster {
    type V = BoosterView;

    closed spec fn view(&self) -> BoosterView {
        BoosterView {
            prev: opt_view(self.prev_cgroup),
            holder: self.holder,
            unit: self.current_unit@,
            key: self.drm_key@,
            vram_total: self.vram_total,
            boost: self.boost,
            slices: self.slices@,
            records: records_view(self.slice_states@),
        }
    }
}

impl Booster {
    #[verifier::type_invariant]
    closed spec fn records_in_range(self) -> bool {
        forall|j: int|
            0 <= j < self.slice_states@.len() ==> #[trigger] self.slice_states@[j].index
                < self.slices@.len()
    }

    /// A daemon state for the GPU region `drm_key` of `vram_total` bytes, with
    /// a boost of `boost` bytes and the slice settings `slices`: nothing
    /// boosted, no slice seen.
    pub fn new(drm_key: String, vram_total: u64, boost: u64, slices: Vec<SliceSetting>) -> (b: Self)
        ensures
            b@.prev is None,
            b@.holder is None,
            b@.unit.len() == 0,
            b@.key == drm_key@,
            b@.vram_total == vram_total,
            b@.boost == boost,
            b@.slices == slices@,
            b@.records.len() == 0,
    {
        let b = Booster {
            prev_cgroup: None,
            holder: None,
            current_unit: String::new(),
            drm_key,
            vram_total,
            boost,
            slices,
            slice_states: Vec::new(),
        };
        proof {
            assert(records_view(b.slice_states@) =~= Seq::<RecordView>::empty());
        }
        b
    }

    /// The unit that holds the boost, or empty.
    pub fn current_unit(&self) -> (r: String)
        ensures
            r@ == self@.unit,
    {
        self.current_unit.clone()
    }

    /// The GPU region's key.
    pub fn drm_key(&self) -> (r: String)
        ensures
            r@ == self@.key,
    {
        self.drm_key.clone()
    }

    /// The VRAM size, in bytes.
    pub fn vram_total(&self) -> (r: u64)
        ensures
            r == self@.vram_total,
    {
        self.vram_total
    }

    /// The boost, in bytes.
    pub fn boosted_bytes(&self) -> (r: u64)
        ensures
            r == self@.boost,
    {
        self.boost
    }

    /// The cgroup that holds the boost, or empty.
    pub fn prev_cgroup(&self) -> (r: String)
        ensures
            r@ == match self@.prev {
                Some(p) => p,
                None => Seq::<char>::empty(),
            },
    {
        match &self.prev_cgroup {
            Some(p) => p.clone(),
            None => String::new(),
        }
    }

    /// The number of slice settings.
    pub fn slice_count(&self) -> (r: usize)
        ensures
            r == self@.slices.len(),
    {
        self.slices.len()
    }

    /// Slice setting `i`.
    pub fn slice(&self, i: usize) -> (s: &SliceSetting)
        requires
            i < self@.slices.len(),
        ensures
            *s == self@.slices[i as int],
    {
        &self.slices[i]
    }

    /// The value the daemon keeps in `file` of a slice; 0 when it keeps none.
    pub fn slice_value(&self, file: &str) -> (r: u64)
        ensures
            r == kept_value(self@.slices, file@),
    {
        let mut i: usize = 0;
        while i < self.slices.len()
            invariant
                i <= self.slices@.len(),
                forall|j: int| 0 <= j < i ==> self.slices@[j].file@ != file@,
            decreases self.slices.len() - i,
        {
            if str_eq(self.slices[i].file, file) {
                proof {
                    lemma_kept_value_first(self.slices@, file@, i as int);
                }
                return self.slices[i].value;
            }
            i = i + 1;
        }
        proof {
            lemma_kept_value_none(self.slices@, file@);
        }
        0
    }

    /// The directory of setting `i`'s slice under the user manager `manager`.
    pub fn slice_dir(&self, manager: &str, i: usize) -> (dir: String)
        requires
            i < self@.slices.len(),
        ensures
            dir@ == manager@ + seq!['/'] + self@.slices[i as int].slice@,
    {
        let mut cs = chars_of(manager);
        cs.push('/');
        push_all(&mut cs, chars_of(self.slices[i].slice).as_slice());
        string_of(cs.as_slice())
    }

    /// The line that sets setting `i` to the daemon's value.
    pub fn slice_write_line(&self, i: usize) -> (line: String)
        requires
            i < self@.slices.len(),
        ensures
            line@ == dmem_line_spec(self@.key, ours(self@.slices[i as int])),
    {
        let v = decimal_string(self.slices[i].value);
        dmem_line(self.drm_key.as_str(), v.as_str())
    }

    /// The line that puts setting `i` back to its unset value.
    pub fn slice_restore_line(&self, i: usize) -> (line: String)
        requires
            i < self@.slices.len(),
        ensures
            line@ == dmem_line_spec(self@.key, self@.slices[i as int].unset@),
    {
        dmem_line(self.drm_key.as_str(), self.slices[i].unset)
    }

    /// The line that sets the GPU's `dmem.low` of a cgroup to `bytes`.
    pub fn low_line(&self, bytes: u64) -> (line: String)
        ensures
            line@ == dmem_line_spec(self@.key, decimal(bytes as nat)),
    {
        let v = decimal_string(bytes);
        dmem_line(self.drm_key.as_str(), v.as_str())
    }

    /// What follows reading setting `i`'s file on a slice, which holds
    /// `current` for the GPU (None if it has no such file or region): settled
    /// as unknown, held or foreign, or the daemon's value to be written,
    /// only where the file holds the unset value.
    pub fn on_slice_value(&self, i: usize, current: Option<&str>) -> (next: SliceNext)
        requires
            i < self@.slices.len(),
        ensures
            next == after_read(self@.slices[i as int], str_view(current)),
    {
        match current {
            None => SliceNext::Settled(SliceState::Unknown),
            Some(v) => {
                let ours_text = decimal_string(self.slices[i].value);
                if str_eq(v, ours_text.as_str()) {
                    SliceNext::Settled(SliceState::Held)
                } else if str_eq(v, self.slices[i].unset) {
                    SliceNext::Write
                } else {
                    SliceNext::Settled(SliceState::Foreign)
                }
            },
        }
    }

    /// What follows writing the daemon's value: read it back when written,
    /// unknown when the file was missing or the write did not finish, failed
    /// when the write failed.
    pub fn on_slice_written(&self, result: Result<WriteOutcome, ()>) -> (next: SliceNext)
        ensures
            next == after_write(result),
    {
        match result {
            Ok(WriteOutcome::Wrote) => SliceNext::Verify,
            Ok(_) => SliceNext::Settled(SliceState::Unknown),
            Err(_) => SliceNext::Settled(SliceState::Failed),
        }
    }

    /// The state once the written value was read back as `now`: held when it
    /// is the daemon's, refused when the kernel kept the old one.
    pub fn on_slice_verified(&self, i: usize, now: Option<&str>) -> (state: SliceState)
        requires
            i < self@.slices.len(),
        ensures
            state == after_verify(self@.slices[i as int], str_view(now)),
    {
        match now {
            Some(v) => {
                let ours_text = decimal_string(self.slices[i].value);
                if str_eq(v, ours_text.as_str()) {
                    SliceState::Held
                } else {
                    SliceState::Refused
                }
            },
            None => SliceState::Refused,
        }
    }

    /// The state last recorded for setting `i` on `dir`, if any.
    pub fn slice_state(&self, dir: &str, i: usize) -> (r: Option<SliceState>)
        ensures
            r == lookup_state(self@.records, dir@, i as nat),
    {
        match self.find_slice_record(dir, i) {
            Some(j) => Some(self.slice_states[j].state),
            None => None,
        }
    }

    fn find_slice_record(&self, dir: &str, i: usize) -> (r: Option<usize>)
        ensures
            r matches Some(j) ==> find_record(self@.records, dir@, i as nat) == Some(j as int) && j
                < self.slice_states@.len(),
            r is None ==> find_record(self@.records, dir@, i as nat) is None,
    {
        let ghost rs = records_view(self.slice_states@);
        let mut found: Option<usize> = None;
        let mut k: usize = 0;
        while k < self.slice_states.len()
            invariant
                rs == records_view(self.slice_states@),
                k <= self.slice_states@.len(),
                found matches Some(j) ==> find_record(rs.take(k as int), dir@, i as nat) == Some(
                    j as int,
                ) && j < k,
                found is None ==> find_record(rs.take(k as int), dir@, i as nat) is None,
            decreases self.slice_states.len() - k,
        {
            proof {
                assert(rs.take(k + 1).drop_last() =~= rs.take(k as int));
            }
            if self.slice_states[k].index == i && str_eq(self.slice_states[k].dir.as_str(), dir) {
                found = Some(k);
            }
            k = k + 1;
        }
        proof {
            assert(rs.take(k as int) =~= rs);
        }
        found
    }

    /// Records `state` as where setting `i` stands on `dir`, and gives the
    /// state recorded there before (unknown if none was).
    pub fn record_slice(&mut self, dir: String, i: usize, state: SliceState) -> (before: SliceState)
        requires
            i < old(self)@.slices.len(),
        ensures
            final(self)@ == (BoosterView {
                records: upsert(old(self)@.records, dir@, i as nat, state),
                ..old(self)@
            }),
            before == match lookup_state(old(self)@.records, dir@, i as nat) {
                Some(s) => s,
                None => SliceState::Unknown,
            },
    {
        proof {
            use_type_invariant(&*self);
        }
        let ghost rs = records_view(self.slice_states@);
        let found = self.find_slice_record(dir.as_str(), i);
        let mut states: Vec<SliceRecord> = Vec::new();
        std::mem::swap(&mut states, &mut self.slice_states);
        let before = match found {
            Some(j) => {
                let before = states[j].state;
                let rec = SliceRecord { dir, index: i, state };
                let ghost rv = (rec.dir@, rec.index as nat, rec.state);
                states.set(j, rec);
                proof {
                    assert(records_view(states@) =~= rs.update(j as int, rv));
                }
                before
            },
            None => {
                let rec = SliceRecord { dir, index: i, state };
                let ghost rv = (rec.dir@, rec.index as nat, rec.state);
                states.push(rec);
                proof {
                    assert(records_view(states@) =~= rs.push(rv));
                }
                SliceState::Unknown
            },
        };
        std::mem::swap(&mut states, &mut self.slice_states);
        before
    }

    /// Hands out every slice record, for putting the settings back at exit,
    /// and keeps none.
    pub fn take_slice_records(&mut self) -> (records: Vec<SliceRecord>)
        ensures
            records_view(records@) == old(self)@.records,
            forall|j: int| 0 <= j < records@.len() ==> #[trigger] records@[j].index < old(self)@.slices.len(),
            final(self)@ == (BoosterView { records: Seq::empty(), ..old(self)@ }),
    {
        proof {
            use_type_invariant(&*self);
        }
        let mut states: Vec<SliceRecord> = Vec::new();
        std::mem::swap(&mut states, &mut self.slice_states);
        proof {
            assert(records_view(self.slice_states@) =~= Seq::<RecordView>::empty());
        }
        states
    }

    /// Whether to put setting `i` back to its unset value on a slice whose
    /// file holds `current`: only while it holds the daemon's value.
    pub fn should_restore(&self, i: usize, current: Option<&str>) -> (r: bool)
        requires
            i < self@.slices.len(),
        ensures
            r == (str_view(current) == Some(ours(self@.slices[i as int]))),
    {
        match current {
            Some(v) => {
                let ours_text = decimal_string(self.slices[i].value);
                str_eq(v, ours_text.as_str())
            },
            None => false,
        }
    }

    /// Takes the boost back: hands out the cgroup that holds it, whose
    /// `dmem.low` is then set to 0, and forgets it, its unit and its holder.
    pub fn take_previous(&mut self) -> (prev: Option<String>)
        ensures
            opt_view(prev) == old(self)@.prev,
            final(self)@ == (BoosterView {
                prev: None,
                holder: None,
                unit: Seq::empty(),
                ..old(self)@
            }),
    {
        proof {
            use_type_invariant(&*self);
        }
        let mut prev: Option<String> = None;
        std::mem::swap(&mut prev, &mut self.prev_cgroup);
        self.current_unit = String::new();
        self.holder = None;
        prev
    }

    /// Takes the boost back for the user `caller`'s session, only if that
    /// session was given it (see `take_previous`); else changes nothing.
    pub fn release_for(&mut self, caller: u32) -> (prev: Option<String>)
        ensures
            old(self)@.holder == Some(caller) ==> opt_view(prev) == old(self)@.prev && final(self)@
                == (BoosterView { prev: None, holder: None, unit: Seq::empty(), ..old(self)@ }),
            old(self)@.holder != Some(caller) ==> prev is None && final(self)@ == old(self)@,
    {
        if self.holder == Some(caller) {
            self.take_previous()
        } else {
            None
        }
    }
}


/// The daemon's value of a setting, as text.
pub open spec fn ours(s: SliceSetting) -> Seq<char> {
    decimal(s.value as nat)
}

/// The text of an optional string slice.
pub open spec fn str_view(o: Option<&str>) -> Option<Seq<char>> {
    match o {
        Some(s) => Some(s@),
        None => None,
    }
}

/// The value kept in `file`: that of the first setting for that file, or 0.
pub open spec fn kept_value(slices: Seq<SliceSetting>, file: Seq<char>) -> u64
    decreases slices.len(),
{
    if slices.len() == 0 {
        0
    } else if slices[0].file@ == file {
        slices[0].value
    } else {
        kept_value(slices.drop_first(), file)
    }
}

proof fn lemma_kept_value_first(slices: Seq<SliceSetting>, file: Seq<char>, i: int)
    requires
        0 <= i < slices.len(),
        slices[i].file@ == file,
        forall|j: int| 0 <= j < i ==> slices[j].file@ != file,
    ensures
        kept_value(slices, file) == slices[i].value,
    decreases i,
{
    if i > 0 {
        lemma_kept_value_first(slices.drop_first(), file, i - 1);
    }
}

proof fn lemma_kept_value_none(slices: Seq<SliceSetting>, file: Seq<char>)
    requires
        forall|j: int| 0 <= j < slices.len() ==> slices[j].file@ != file,
    ensures
        kept_value(slices, file) == 0,
    decreases slices.len(),
{
    if slices.len() > 0 {
        lemma_kept_value_none(slices.drop_first(), file);
    }
}

/// What the app does next for a slice setting.
#[derive(Clone, Copy, Debug, PartialEq, Eq, Structural)]
pub enum SliceNext {
    /// The setting's state on the slice is known: record it.
    Settled(SliceState),
    /// Write the daemon's value.
    Write,
    /// Read the value back.
    Verify,
}

/// After reading `current` from a slice: nothing there is unknown, the
/// daemon's value is held, the unset value is to be written over, and any
/// other value is someone else's.
pub open spec fn after_read(s: SliceSetting, current: Option<Seq<char>>) -> SliceNext {
    match current {
        None => SliceNext::Settled(SliceState::Unknown),
        Some(v) => if v == ours(s) {
            SliceNext::Settled(SliceState::Held)
        } else if v == s.unset@ {
            SliceNext::Write
        } else {
            SliceNext::Settled(SliceState::Foreign)
        },
    }
}

/// After writing the daemon's value.
pub open spec fn after_write(r: Result<WriteOutcome, ()>) -> SliceNext {
    match r {
        Ok(WriteOutcome::Wrote) => SliceNext::Verify,
        Ok(_) => SliceNext::Settled(SliceState::Unknown),
        Err(_) => SliceNext::Settled(SliceState::Failed),
    }
}

/// After reading back `now` where the daemon's value was written.
pub open spec fn after_verify(s: SliceSetting, now: Option<Seq<char>>) -> SliceState {
    if now == Some(ours(s)) {
        SliceState::Held
    } else {
        SliceState::Refused
    }
}

// ---------------------------------------------------------------------------
// Handling a focus change.
// ---------------------------------------------------------------------------

/// What happened since the last step of a focus change.
pub enum FocusEvent {
    /// The focus change starts.
    Begin,
    /// The slice settings of the focused app's user are in place.
    SlicesEnsured,
    /// The focused cgroup's `dmem.low` holds this (None if it could not be read).
    BoostFile(Option<String>),
    /// The boost was taken back from the app that held it.
    TakenBack,
    /// The boost was written to the focused cgroup, with this result.
    Written(Result<WriteOutcome, ()>),
}

/// What the app does next for a focus change.
pub enum FocusAction {
    /// Put the slice settings on the slices of this user manager.
    EnsureSlices(String),
    /// Read the `dmem.low` of this cgroup.
    CheckBoost(String),
    /// Take the boost back from the app that holds it.
    TakeBack,
    /// Write the boost to this cgroup's `dmem.low`.
    WriteBoost(String),
    /// The focus change is over; whether the focused app holds the boost.
    Finish(bool),
}

/// A focus event as text.
pub enum FocusEventView {
    Begin,
    SlicesEnsured,
    BoostFile(Option<Seq<char>>),
    TakenBack,
    Written(Result<WriteOutcome, ()>),
}

/// A focus action as text.
pub enum FocusPlan {
    EnsureSlices(Seq<char>),
    CheckBoost(Seq<char>),
    TakeBack,
    WriteBoost(Seq<char>),
    Finish(bool),
}

impl View for FocusEvent {
    type V = FocusEventView;

    open spec fn view(&self) -> FocusEventView {
        match self {
            FocusEvent::Begin => FocusEventView::Begin,
            FocusEvent::SlicesEnsured => FocusEventView::SlicesEnsured,
            FocusEvent::BoostFile(c) => FocusEventView::BoostFile(opt_view(*c)),
            FocusEvent::TakenBack => FocusEventView::TakenBack,
            FocusEvent::Written(r) => FocusEventView::Written(*r),
        }
    }
}

impl View for FocusAction {
    type V = FocusPlan;

    open spec fn view(&self) -> FocusPlan {
        match self {
            FocusAction::EnsureSlices(m) => FocusPlan::EnsureSlices(m@),
            FocusAction::CheckBoost(c) => FocusPlan::CheckBoost(c@),
            FocusAction::TakeBack => FocusPlan::TakeBack,
            FocusAction::WriteBoost(c) => FocusPlan::WriteBoost(c@),
            FocusAction::Finish(b) => FocusPlan::Finish(*b),
        }
    }
}

/// Once the slices are seen to: the file decides whether a boost on the
/// same cgroup is still there; a boost elsewhere is taken back first.
pub open spec fn after_slices(v: BoosterView, c: Seq<char>) -> FocusPlan {
    if v.prev == Some(c) {
        FocusPlan::CheckBoost(c)
    } else {
        FocusPlan::TakeBack
    }
}

/// The cgroup of a focus change that the user `caller`'s session may boost:
/// one in that user's `user-<uid>.slice`.
pub open spec fn boostable(cg: Option<Seq<char>>, caller: u32) -> Option<Seq<char>> {
    match cg {
        Some(c) => if in_user_slice(c, caller) {
            Some(c)
        } else {
            None
        },
        None => None,
    }
}

/// The next step of a focus change asked for by the user `caller`'s
/// session, to `cg` (None: nothing boostable has the focus), after `e`. A
/// cgroup outside the caller's user slice counts as nothing boostable; with
/// nothing boostable, the boost is taken back only if that session was given it.
pub open spec fn focus_plan(v: BoosterView, caller: u32, cg: Option<Seq<char>>, e: FocusEventView) -> FocusPlan {
    match boostable(cg, caller) {
        None => match e {
            FocusEventView::Begin => if v.holder == Some(caller) {
                FocusPlan::TakeBack
            } else {
                FocusPlan::Finish(false)
            },
            FocusEventView::SlicesEnsured => if v.holder == Some(caller) {
                FocusPlan::TakeBack
            } else {
                FocusPlan::Finish(false)
            },
            _ => FocusPlan::Finish(false),
        },
        Some(c) => match e {
            FocusEventView::Begin => match user_manager_spec(c) {
                Some(m) => FocusPlan::EnsureSlices(m),
                None => after_slices(v, c),
            },
            FocusEventView::SlicesEnsured => after_slices(v, c),
            FocusEventView::BoostFile(content) => match content {
                Some(t) => if has_value_spec(t, v.key, v.boost) {
                    FocusPlan::Finish(true)
                } else {
                    FocusPlan::WriteBoost(c)
                },
                None => FocusPlan::WriteBoost(c),
            },
            FocusEventView::TakenBack => FocusPlan::WriteBoost(c),
            FocusEventView::Written(r) => FocusPlan::Finish(r == Ok::<WriteOutcome, ()>(WriteOutcome::Wrote)),
        },
    }
}

/// The daemon's state after `e` in a focus change asked for by `caller` to
/// `cg`: a written boost is recorded with its cgroup, unit and holder;
/// nothing else changes.
pub open spec fn focus_state(v: BoosterView, caller: u32, cg: Option<Seq<char>>, e: FocusEventView) -> BoosterView {
    match (boostable(cg, caller), e) {
        (Some(c), FocusEventView::Written(Ok(WriteOutcome::Wrote))) => BoosterView {
            prev: Some(c),
            holder: Some(caller),
            unit: last_component(c),
            ..v
        },
        _ => v,
    }
}

impl Booster {
    /// One step of a focus change asked for by the user `caller`'s session,
    /// to `cgroup` (None when nothing that can be boosted has the focus),
    /// after `event`: the next thing for the app to do, with a written boost
    /// recorded.
    pub fn focus_step(&mut self, caller: u32, cgroup: &Option<String>, event: FocusEvent) -> (action:
        FocusAction)
        ensures
            action@ == focus_plan(old(self)@, caller, opt_view(*cgroup), event@),
            final(self)@ == focus_state(old(self)@, caller, opt_view(*cgroup), event@),
    {
        proof {
            use_type_invariant(&*self);
        }
        let target: Option<&String> = match cgroup {
            Some(c) => if is_users_cgroup(c.as_str(), caller) {
                Some(c)
            } else {
                None
            },
            None => None,
        };
        match target {
            None => match event {
                FocusEvent::Begin | FocusEvent::SlicesEnsured => if self.holder == Some(caller) {
                    FocusAction::TakeBack
                } else {
                    FocusAction::Finish(false)
                },
                _ => FocusAction::Finish(false),
            },
            Some(c) => match event {
                FocusEvent::Begin => match user_manager(c.as_str()) {
                    Some(m) => FocusAction::EnsureSlices(m),
                    None => self.after_slices_step(c),
                },
                FocusEvent::SlicesEnsured => self.after_slices_step(c),
                FocusEvent::BoostFile(content) => match content {
                    Some(t) => if dmem_low_has_value(t.as_str(), self.drm_key.as_str(), self.boost) {
                        FocusAction::Finish(true)
                    } else {
                        FocusAction::WriteBoost(c.clone())
                    },
                    None => FocusAction::WriteBoost(c.clone()),
                },
                FocusEvent::TakenBack => FocusAction::WriteBoost(c.clone()),
                FocusEvent::Written(r) => match r {
                    Ok(WriteOutcome::Wrote) => {
                        self.prev_cgroup = Some(c.clone());
                        self.current_unit = unit_label(c.as_str());
                        self.holder = Some(caller);
                        FocusAction::Finish(true)
                    },
                    _ => FocusAction::Finish(false),
                },
            },
        }
    }

    fn after_slices_step(&self, c: &String) -> (action: FocusAction)
        ensures
            action@ == after_slices(self@, c@),
    {
        let same = match &self.prev_cgroup {
            Some(p) => str_eq(p.as_str(), c.as_str()),
            None => false,
        };
        if same {
            FocusAction::CheckBoost(c.clone())
        } else {
            FocusAction::TakeBack
        }
    }
}

// ---------------------------------------------------------------------------
// Laws.
// ---------------------------------------------------------------------------

/// A slice setting is written only where the file holds its unset value, and
/// a value that is neither the daemon's nor the unset one is left alone as
/// someone else's.
pub proof fn law_setting_written_only_over_unset(s: SliceSetting, current: Option<Seq<char>>)
    ensures
        after_read(s, current) == SliceNext::Write ==> current == Some(s.unset@),
        (current matches Some(v) && v != ours(s) && v != s.unset@) ==> after_read(s, current)
            == SliceNext::Settled(SliceState::Foreign),
{
}

/// Once the daemon's value is written to a slice file, reading the file back
/// settles the setting as held: `dmem_entry` of the written line gives the
/// daemon's value, for a region key that is one word.
pub proof fn law_written_setting_held(key: Seq<char>, s: SliceSetting)
    requires
        is_word(key),
    ensures
        after_verify(s, dmem_entry_spec(dmem_line_spec(key, ours(s)), key)) == SliceState::Held,
{
    lemma_decimal_is_word(s.value as nat);
    law_written_value_read_back(key, ours(s));
}

/// What the daemon writes to a slice file is read back as its own: a later
/// check finds the setting held, and it is put back at exit; what it puts
/// back is read as the unset value.
pub proof fn law_setting_cycle(key: Seq<char>, s: SliceSetting)
    requires
        is_word(key),
        is_word(s.unset@),
    ensures
        after_read(s, dmem_entry_spec(dmem_line_spec(key, ours(s)), key)) == SliceNext::Settled(
            SliceState::Held,
        ),
        dmem_entry_spec(dmem_line_spec(key, ours(s)), key) == Some(ours(s)),
        dmem_entry_spec(dmem_line_spec(key, s.unset@), key) == Some(s.unset@),
        ours(s) != s.unset@ ==> after_read(s, dmem_entry_spec(dmem_line_spec(key, s.unset@), key))
            == SliceNext::Write,
{
    lemma_decimal_is_word(s.value as nat);
    law_written_value_read_back(key, ours(s));
    law_written_value_read_back(key, s.unset@);
}

/// The body of a slice file for setting `s` once the daemon has seen to it
/// and its writes went through: its own line where the file held the unset
/// value, else as it was.
pub open spec fn ensured_body(key: Seq<char>, s: SliceSetting, body: Seq<char>) -> Seq<char> {
    if after_read(s, dmem_entry_spec(body, key)) == SliceNext::Write {
        dmem_line_spec(key, ours(s))
    } else {
        body
    }
}

/// The body of a slice file for setting `s` once the daemon has put its
/// settings back at exit: the unset line where the file held the daemon's
/// value, else as it was.
pub open spec fn restored_body(key: Seq<char>, s: SliceSetting, body: Seq<char>) -> Seq<char> {
    if dmem_entry_spec(body, key) == Some(ours(s)) {
        dmem_line_spec(key, s.unset@)
    } else {
        body
    }
}

/// Putting the settings back undoes seeing to them: a slice file that held
/// its unset value holds it again, whatever the daemon's value is.
pub proof fn law_restore_undoes_ensure(key: Seq<char>, s: SliceSetting)
    requires
        is_word(key),
        is_word(s.unset@),
    ensures
        restored_body(key, s, ensured_body(key, s, dmem_line_spec(key, s.unset@)))
            == dmem_line_spec(key, s.unset@),
{
    law_setting_cycle(key, s);
}

/// The slice settings the daemon keeps: session.slice's `dmem.low` at the
/// whole VRAM is among them exactly when asked for, and first; whenever a
/// ceiling is given, the last is app.slice's `dmem.max` at that ceiling,
/// with or without the session protection; there is no other setting.
pub proof fn law_settings_list(protect_session: bool, vram_total: u64, ceiling: Option<u64>)
    ensures
        ({
            let v = settings_spec(protect_session, vram_total, ceiling);
            &&& v.len() == (if protect_session { 1int } else { 0 }) + (if ceiling is Some { 1int } else { 0 })
            &&& (exists|i: int| 0 <= i < v.len() && #[trigger] v[i].slice == "session.slice"@)
                <==> protect_session
            &&& protect_session ==> v[0].slice == "session.slice"@ && v[0].file == "dmem.low"@
                && v[0].unset == "0"@ && v[0].value == vram_total
            &&& (ceiling matches Some(c) ==> v.last().slice == "app.slice"@ && v.last().file
                == "dmem.max"@ && v.last().unset == "max"@ && v.last().value == c)
            &&& (ceiling is None ==> forall|i: int| 0 <= i < v.len() ==> #[trigger] v[i].slice
                != "app.slice"@)
        }),
{
    reveal_strlit("session.slice");
    reveal_strlit("app.slice");
    let v = settings_spec(protect_session, vram_total, ceiling);
    assert("session.slice"@ != "app.slice"@) by {
        assert("session.slice"@.len() != "app.slice"@.len());
    }
    if !protect_session {
        assert forall|i: int| 0 <= i < v.len() implies #[trigger] v[i].slice != "session.slice"@ by {}
    } else {
        assert(v[0].slice == "session.slice"@);
    }
}

/// A recorded state is the one looked up afterwards for that slice and
/// setting, and the states of the others stay as they were.
pub proof fn law_record_then_lookup(
    rs: Seq<RecordView>,
    dir: Seq<char>,
    i: nat,
    s: SliceState,
    other_dir: Seq<char>,
    other_i: nat,
)
    ensures
        lookup_state(upsert(rs, dir, i, s), dir, i) == Some(s),
        !(other_dir == dir && other_i == i) ==> lookup_state(upsert(rs, dir, i, s), other_dir, other_i)
            == lookup_state(rs, other_dir, other_i),
{
    let u = upsert(rs, dir, i, s);
    lemma_find_record_in_range(rs, dir, i);
    lemma_find_record_last(rs, dir, i);
    match find_record(rs, dir, i) {
        None => {
            lemma_find_record_is(u, dir, i, rs.len() as int);
        },
        Some(j) => {
            assert forall|m: int| j < m < u.len() implies !(#[trigger] u[m].0 == dir && u[m].1 == i) by {
                assert(u[m] == rs[m]);
            }
            lemma_find_record_is(u, dir, i, j);
        },
    }
    if !(other_dir == dir && other_i == i) {
        lemma_find_record_in_range(rs, other_dir, other_i);
        lemma_find_record_last(rs, other_dir, other_i);
        assert forall|m: int| 0 <= m < rs.len() implies ((#[trigger] u[m]).0 == other_dir && u[m].1
            == other_i) == (rs[m].0 == other_dir && rs[m].1 == other_i) by {
            if !(u[m] == rs[m]) {
                assert(u[m].0 == dir && u[m].1 == i);
                assert(rs[m].0 == dir && rs[m].1 == i);
            }
        }
        match find_record(rs, other_dir, other_i) {
            None => {
                assert forall|m: int| 0 <= m < u.len() implies !(#[trigger] u[m].0 == other_dir
                    && u[m].1 == other_i) by {
                    if m < rs.len() {
                        assert(!(rs[m].0 == other_dir && rs[m].1 == other_i));
                    }
                }
                lemma_find_record_none(u, other_dir, other_i);
            },
            Some(m) => {
                assert(u[m] == rs[m]);
                assert forall|n: int| m < n < u.len() implies !(#[trigger] u[n].0 == other_dir
                    && u[n].1 == other_i) by {
                    if n < rs.len() {
                        assert(!(rs[n].0 == other_dir && rs[n].1 == other_i));
                    }
                }
                lemma_find_record_is(u, other_dir, other_i, m);
            },
        }
    }
}

proof fn lemma_find_record_last(rs: Seq<RecordView>, d: Seq<char>, k: nat)
    ensures
        find_record(rs, d, k) matches Some(j) ==> forall|m: int|
            j < m < rs.len() ==> !(#[trigger] rs[m].0 == d && rs[m].1 == k),
    decreases rs.len(),
{
    if rs.len() > 0 && !(rs.last().0 == d && rs.last().1 == k) {
        lemma_find_record_last(rs.drop_last(), d, k);
        lemma_find_record_in_range(rs, d, k);
        match find_record(rs, d, k) {
            Some(j) => {
                assert forall|m: int| j < m < rs.len() implies !(#[trigger] rs[m].0 == d && rs[m].1
                    == k) by {
                    if m < rs.len() - 1 {
                        assert(rs[m] == rs.drop_last()[m]);
                    }
                }
            },
            None => {},
        }
    }
}

proof fn lemma_find_record_is(rs: Seq<RecordView>, d: Seq<char>, k: nat, j: int)
    requires
        0 <= j < rs.len(),
        rs[j].0 == d && rs[j].1 == k,
        forall|m: int| j < m < rs.len() ==> !(#[trigger] rs[m].0 == d && rs[m].1 == k),
    ensures
        find_record(rs, d, k) == Some(j),
    decreases rs.len(),
{
    if j < rs.len() - 1 {
        assert(!(rs[rs.len() - 1].0 == d && rs[rs.len() - 1].1 == k));
        let r = rs.drop_last();
        assert forall|m: int| j < m < r.len() implies !(#[trigger] r[m].0 == d && r[m].1 == k) by {
            assert(r[m] == rs[m]);
        }
        lemma_find_record_is(r, d, k, j);
    }
}

proof fn lemma_find_record_none(rs: Seq<RecordView>, d: Seq<char>, k: nat)
    requires
        forall|m: int| 0 <= m < rs.len() ==> !(#[trigger] rs[m].0 == d && rs[m].1 == k),
    ensures
        find_record(rs, d, k) is None,
    decreases rs.len(),
{
    if rs.len() > 0 {
        let r = rs.drop_last();
        assert(!(rs[rs.len() - 1].0 == d && rs[rs.len() - 1].1 == k));
        assert forall|m: int| 0 <= m < r.len() implies !(#[trigger] r[m].0 == d && r[m].1 == k) by {
            assert(r[m] == rs[m]);
        }
        lemma_find_record_none(r, d, k);
    }
}

/// When nothing boostable has the focus, the boost is taken back if the
/// asking session was given it, and the focus change reports that no app
/// holds it; a session does not take back a boost another user's session holds.
pub proof fn law_focus_lost_takes_own_boost_back(v: BoosterView, caller: u32)
    ensures
        v.holder == Some(caller) ==> focus_plan(v, caller, None, FocusEventView::Begin)
            == FocusPlan::TakeBack,
        v.holder != Some(caller) ==> focus_plan(v, caller, None, FocusEventView::Begin)
            == FocusPlan::Finish(false) && focus_state(v, caller, None, FocusEventView::Begin) == v,
        focus_plan(v, caller, None, FocusEventView::TakenBack) == FocusPlan::Finish(false),
{
}

/// A unit outside the asking user's own `user-<uid>.slice` is handled as
/// nothing boostable: no slice settings, no check, no write for it.
pub proof fn law_other_users_units_not_boosted(v: BoosterView, caller: u32, c: Seq<char>, e: FocusEventView)
    requires
        !in_user_slice(c, caller),
    ensures
        focus_plan(v, caller, Some(c), e) == focus_plan(v, caller, None, e),
        focus_state(v, caller, Some(c), e) == v,
{
}

/// A unit in another user's slice is never boosted for the asking session:
/// it is handled as nothing boostable.
pub proof fn law_other_users_slice_not_boosted(
    v: BoosterView,
    caller: u32,
    other: u32,
    c: Seq<char>,
    e: FocusEventView,
)
    requires
        in_user_slice(c, other),
        other != caller,
    ensures
        focus_plan(v, caller, Some(c), e) == focus_plan(v, caller, None, e),
        focus_state(v, caller, Some(c), e) == v,
{
    law_user_slices_are_disjoint(c, caller, other);
}

/// A focus change to a cgroup that does not hold the boost takes the boost
/// back from the app that holds it before anything is written: neither the
/// start nor the slices being seen to leads to a write, and once the slices
/// are seen to, the next step is taking the boost back.
pub proof fn law_boost_taken_back_before_new_one(v: BoosterView, caller: u32, c: Seq<char>)
    requires
        v.prev != Some(c),
        in_user_slice(c, caller),
    ensures
        focus_plan(v, caller, Some(c), FocusEventView::SlicesEnsured) == FocusPlan::TakeBack,
        user_manager_spec(c) is None ==> focus_plan(v, caller, Some(c), FocusEventView::Begin)
            == FocusPlan::TakeBack,
        !(focus_plan(v, caller, Some(c), FocusEventView::Begin) is WriteBoost),
{
}

/// A focused app whose `dmem.low` still holds the line this daemon writes
/// keeps its boost with no write: the file decides.
pub proof fn law_boost_found_needs_no_write(v: BoosterView, caller: u32, c: Seq<char>)
    requires
        is_word(v.key),
        in_user_slice(c, caller),
    ensures
        focus_plan(
            v,
            caller,
            Some(c),
            FocusEventView::BoostFile(Some(dmem_line_spec(v.key, decimal(v.boost as nat)))),
        ) == FocusPlan::Finish(true),
{
    law_written_boost_recognised(v.key, v.boost);
}

/// A boost that was written is recorded, with its cgroup, unit and the
/// asking user as holder, and the focus change reports it held; a write
/// that did not happen changes nothing and reports it not held.
pub proof fn law_written_boost_recorded(
    v: BoosterView,
    caller: u32,
    c: Seq<char>,
    r: Result<WriteOutcome, ()>,
)
    requires
        in_user_slice(c, caller),
    ensures
        r == Ok::<WriteOutcome, ()>(WriteOutcome::Wrote) ==> {
            let w = focus_state(v, caller, Some(c), FocusEventView::Written(r));
            &&& w.prev == Some(c)
            &&& w.holder == Some(caller)
            &&& w.unit == last_component(c)
            &&& w.records == v.records
            &&& focus_plan(v, caller, Some(c), FocusEventView::Written(r)) == FocusPlan::Finish(true)
        },
        r != Ok::<WriteOutcome, ()>(WriteOutcome::Wrote) ==> {
            &&& focus_state(v, caller, Some(c), FocusEventView::Written(r)) == v
            &&& focus_plan(v, caller, Some(c), FocusEventView::Written(r)) == FocusPlan::Finish(false)
        },
{
}

}
