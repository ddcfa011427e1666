//! Scoring a timetable: clashes between sections and lecturer preferences.
use vstd::prelude::*;
use crate::model::{OptimizedCourse, TimePreferenceRequest};

verus! {

/// The (program, semester, room-class) of a scheduled section.
pub type ClassKey = (u64, u64, u64);

pub open spec fn class_key(c: OptimizedCourse) -> ClassKey {
    (c.prodi, c.semester, c.id_kelas)
}

/// Two sections clash when they share a room or a lecturer on the same day
/// and their minute ranges overlap.
pub open spec fn clashes(a: OptimizedCourse, b: OptimizedCourse) -> bool {
    &&& a.hari == b.hari
    &&& (a.ruangan == b.ruangan || a.id_dosen == b.id_dosen)
    &&& a.jam_mulai < b.jam_akhir
    &&& b.jam_mulai < a.jam_akhir
}

/// The clashes of `c` with the first `n` sections of `s`, as class-key pairs.
pub open spec fn clashes_with(s: Seq<OptimizedCourse>, c: OptimizedCourse, n: int) -> Seq<(ClassKey, ClassKey)>
    decreases n,
{
    if n <= 0 {
        Seq::empty()
    } else {
        let prev = clashes_with(s, c, n - 1);
        if clashes(s[n - 1], c) {
            prev.push((class_key(s[n - 1]), class_key(c)))
        } else {
            prev
        }
    }
}

/// Every clashing pair among the first `n` sections, earlier section first.
pub open spec fn clash_pairs(s: Seq<OptimizedCourse>, n: int) -> Seq<(ClassKey, ClassKey)>
    decreases n,
{
    if n <= 0 {
        Seq::empty()
    } else {
        clash_pairs(s, n - 1) + clashes_with(s, s[n - 1], n - 1)
    }
}

/// The first preference entry of lecturer `id`, if any.
pub open spec fn preference_of(prefs: Seq<TimePreferenceRequest>, id: u64) -> Option<TimePreferenceRequest>
    decreases prefs.len(),
{
    if prefs.len() == 0 {
        None
    } else if prefs[0].id_dosen == id {
        Some(prefs[0])
    } else {
        preference_of(prefs.drop_first(), id)
    }
}

/// At most one preference entry per lecturer.
pub open spec fn one_entry_per_lecturer(prefs: Seq<TimePreferenceRequest>) -> bool {
    forall|i: int, j: int| 0 <= i < prefs.len() && 0 <= j < prefs.len() && i != j ==> (#[trigger] prefs[i]).id_dosen
        != (#[trigger] prefs[j]).id_dosen
}

/// With one entry per lecturer, the entry found for a lecturer is that
/// lecturer's own entry, wherever it stands.
pub proof fn lemma_preference_of_unique(prefs: Seq<TimePreferenceRequest>, i: int)
    requires
        one_entry_per_lecturer(prefs),
        0 <= i < prefs.len(),
    ensures
        preference_of(prefs, prefs[i].id_dosen) == Some(prefs[i]),
    decreases prefs.len(),
{
    if i > 0 {
        let t = prefs.drop_first();
        assert(prefs[0].id_dosen != prefs[i].id_dosen);
        assert(t[i - 1] == prefs[i]);
        assert(one_entry_per_lecturer(t)) by {
            assert forall|a: int, b: int| 0 <= a < t.len() && 0 <= b < t.len() && a != b
                implies (#[trigger] t[a]).id_dosen != (#[trigger] t[b]).id_dosen by {
                assert(t[a] == prefs[a + 1] && t[b] == prefs[b + 1]);
            }
        }
        lemma_preference_of_unique(t, i - 1);
    }
}

/// Whether `p` allows teaching on day `hari` (1 Monday to 5 Friday) in the
/// evening session or the morning one; other days are not constrained.
pub open spec fn available(p: TimePreferenceRequest, hari: u64, evening: bool) -> bool {
    if hari == 1 {
        if evening { p.senin_malam } else { p.senin_pagi }
    } else if hari == 2 {
        if evening { p.selasa_malam } else { p.selasa_pagi }
    } else if hari == 3 {
        if evening { p.rabu_malam } else { p.rabu_pagi }
    } else if hari == 4 {
        if evening { p.kamis_malam } else { p.kamis_pagi }
    } else if hari == 5 {
        if evening { p.jumat_malam } else { p.jumat_pagi }
    } else {
        true
    }
}

/// A section violates its lecturer's preferences when the lecturer declared
/// its day and session unavailable. Session category 2 is the evening.
pub open spec fn violates(prefs: Seq<TimePreferenceRequest>, c: OptimizedCourse) -> bool {
    match preference_of(prefs, c.id_dosen) {
        Some(p) => !available(p, c.hari, c.id_waktu == 2),
        None => false,
    }
}

/// The lecturers of the first `n` sections that violate a preference.
pub open spec fn preference_violations(prefs: Seq<TimePreferenceRequest>, s: Seq<OptimizedCourse>, n: int) -> Seq<u64>
    decreases n,
{
    if n <= 0 {
        Seq::empty()
    } else {
        let prev = preference_violations(prefs, s, n - 1);
        if violates(prefs, s[n - 1]) {
            prev.push(s[n - 1].id_dosen)
        } else {
            prev
        }
    }
}

/// The digit character of `d < 10`.
pub open spec fn digit_char(d: nat) -> char {
    seq!['0', '1', '2', '3', '4', '5', '6', '7', '8', '9'][d as int]
}

/// `n` in decimal, without leading zeros.
pub open spec fn decimal(n: nat) -> Seq<char>
    decreases n,
{
    if n < 10 {
        seq![digit_char(n)]
    } else {
        decimal(n / 10).push(digit_char(n % 10))
    }
}

/// A class key written as a tuple: `(prodi, semester, kelas)`.
pub open spec fn class_key_text(k: ClassKey) -> Seq<char> {
    "("@ + decimal(k.0 as nat) + ", "@ + decimal(k.1 as nat) + ", "@ + decimal(k.2 as nat) + ")"@
}

/// The description of a clash between two classes.
pub open spec fn clash_text(pair: (ClassKey, ClassKey)) -> Seq<char> {
    "Bentrok jadwal antara kelompok "@ + class_key_text(pair.0) + " dan "@ + class_key_text(pair.1)
}

/// The description of a preference violation by a lecturer.
pub open spec fn preference_text(id_dosen: u64) -> Seq<char> {
    "Dosen "@ + decimal(id_dosen as nat) + " dijadwalkan pada waktu yang tidak tersedia"@
}

/// Relies on `format!`: `Debug` of a tuple of `u64` writes `(a, b, c)` with
/// each number in decimal.
#[verifier::external_body]
fn describe_clash(pair: (ClassKey, ClassKey)) -> (r: String)
    ensures
        r@ == clash_text(pair),
{
    format!("Bentrok jadwal antara kelompok {:?} dan {:?}", pair.0, pair.1)
}

/// Relies on `format!`: `Display` of a `u64` writes it in decimal.
#[verifier::external_body]
fn describe_preference(id_dosen: u64) -> (r: String)
    ensures
        r@ == preference_text(id_dosen),
{
    format!("Dosen {} dijadwalkan pada waktu yang tidak tersedia", id_dosen)
}

/// The detected violations of one evaluation.
#[derive(Clone, Debug)]
pub struct ConflictInfo {
    pub group_conflicts: Vec<(ClassKey, ClassKey)>,
    pub preference_conflicts: Vec<u64>,
    pub conflicts_list: Vec<String>,
    pub total_conflicts: u64,
}

/// `a + b`, or `u64::MAX` where the sum does not fit.
pub open spec fn capped_sum(a: int, b: int) -> u64 {
    if a + b <= u64::MAX {
        (a + b) as u64
    } else {
        u64::MAX
    }
}

/// The report of a timetable: every clashing pair, every violating lecturer,
/// a sentence for each (clashes first), and the number of violations.
pub open spec fn reports(prefs: Seq<TimePreferenceRequest>, s: Seq<OptimizedCourse>, c: ConflictInfo) -> bool {
    let g = clash_pairs(s, s.len() as int);
    let p = preference_violations(prefs, s, s.len() as int);
    &&& c.group_conflicts@ == g
    &&& c.preference_conflicts@ == p
    &&& c.conflicts_list@.len() == g.len() + p.len()
    &&& forall|k: int| 0 <= k < g.len() ==> (#[trigger] c.conflicts_list@[k])@ == clash_text(g[k])
    &&& forall|k: int| 0 <= k < p.len() ==> (#[trigger] c.conflicts_list@[g.len() + k])@ == preference_text(p[k])
    &&& c.total_conflicts == capped_sum(g.len() as int, p.len() as int)
}

/// The fitness of a timetable: the number of violations, each weighing one
/// (capped at `u64::MAX`). Zero is a timetable without violations.
pub open spec fn fitness_of(prefs: Seq<TimePreferenceRequest>, s: Seq<OptimizedCourse>) -> u64 {
    capped_sum(clash_pairs(s, s.len() as int).len() as int, preference_violations(prefs, s, s.len() as int).len() as int)
}

/// Scores timetables against the lecturers' time preferences. Each lecturer
/// is expected to have at most one entry (`one_entry_per_lecturer`); should
/// there be more, the first one counts.
#[derive(Clone, Debug)]
pub struct ScheduleChecker {
    pub time_preferences: Vec<TimePreferenceRequest>,
}

impl ScheduleChecker {
    pub fn new(time_preferences: Vec<TimePreferenceRequest>) -> (r: ScheduleChecker)
        ensures
            r.time_preferences@ == time_preferences@,
    {
        ScheduleChecker { time_preferences }
    }

    /// The first preference entry of lecturer `id`.
    pub fn preference_for(&self, id: u64) -> (r: Option<TimePreferenceRequest>)
        ensures
            r == preference_of(self.time_preferences@, id),
    {
        let ghost s = self.time_preferences@;
        proof {
            assert(s.skip(0) =~= s);
        }
        let mut i: usize = 0;
        while i < self.time_preferences.len()
            invariant
                s == self.time_preferences@,
                i <= s.len(),
                preference_of(s, id) == preference_of(s.skip(i as int), id),
            decreases s.len() - i,
        {
            if self.time_preferences[i].id_dosen == id {
                return Some(self.time_preferences[i]);
            }
            proof {
                assert(s.skip(i as int).drop_first() =~= s.skip(i as int + 1));
            }
            i = i + 1;
        }
        None
    }

    /// Scores a timetable: its fitness and its conflict report.
    pub fn calculate_fitness(&self, schedule: &Vec<OptimizedCourse>) -> (r: (u64, ConflictInfo))
        ensures
            r.0 == fitness_of(self.time_preferences@, schedule@),
            reports(self.time_preferences@, schedule@, r.1),
    {
        let ghost s = schedule@;
        let ghost prefs = self.time_preferences@;
        let n = schedule.len();
        let mut pairs: Vec<(ClassKey, ClassKey)> = Vec::new();
        let mut texts: Vec<String> = Vec::new();
        let mut j: usize = 0;
        while j < n
            invariant
                s == schedule@,
                n == s.len(),
                j <= n,
                pairs@ == clash_pairs(s, j as int),
                texts@.len() == pairs@.len(),
                forall|k: int| 0 <= k < pairs@.len() ==> (#[trigger] texts@[k])@ == clash_text(pairs@[k]),
            decreases n - j,
        {
            let c = schedule[j];
            let ghost base = pairs@;
            let mut t: usize = 0;
            while t < j
                invariant
                    s == schedule@,
                    n == s.len(),
                    t <= j < n,
                    c == s[j as int],
                    pairs@ == base + clashes_with(s, c, t as int),
                    texts@.len() == pairs@.len(),
                    forall|k: int| 0 <= k < pairs@.len() ==> (#[trigger] texts@[k])@ == clash_text(pairs@[k]),
                decreases j - t,
            {
                let a = schedule[t];
                if a.hari == c.hari && (a.ruangan == c.ruangan || a.id_dosen == c.id_dosen) && a.jam_mulai < c.jam_akhir
                    && c.jam_mulai < a.jam_akhir {
                    let pair = ((a.prodi, a.semester, a.id_kelas), (c.prodi, c.semester, c.id_kelas));
                    pairs.push(pair);
                    texts.push(describe_clash(pair));
                }
                proof {
                    assert(pairs@ =~= base + clashes_with(s, c, t as int + 1));
                }
                t = t + 1;
            }
            j = j + 1;
        }
        let ghost gtexts = texts@;
        let mut lecturers: Vec<u64> = Vec::new();
        let mut i: usize = 0;
        while i < n
            invariant
                s == schedule@,
                prefs == self.time_preferences@,
                n == s.len(),
                i <= n,
                pairs@ == clash_pairs(s, n as int),
                gtexts.len() == pairs@.len(),
                lecturers@ == preference_violations(prefs, s, i as int),
                texts@.len() == pairs@.len() + lecturers@.len(),
                forall|k: int| 0 <= k < pairs@.len() ==> (#[trigger] texts@[k]) == gtexts[k],
                forall|k: int| 0 <= k < pairs@.len() ==> (#[trigger] gtexts[k])@ == clash_text(pairs@[k]),
                forall|k: int| 0 <= k < lecturers@.len() ==> (#[trigger] texts@[pairs@.len() + k])@ == preference_text(lecturers@[k]),
            decreases n - i,
        {
            let c = schedule[i];
            let bad = match self.preference_for(c.id_dosen) {
                Some(p) => !Self::is_available(&p, c.hari, c.id_waktu == 2),
                None => false,
            };
            if bad {
                lecturers.push(c.id_dosen);
                texts.push(describe_preference(c.id_dosen));
            }
            i = i + 1;
        }
        let g = pairs.len() as u64;
        let p = lecturers.len() as u64;
        let total: u64 = if g <= u64::MAX - p { g + p } else { u64::MAX };
        (total, ConflictInfo { group_conflicts: pairs, preference_conflicts: lecturers, conflicts_list: texts, total_conflicts: total })
    }

    /// Whether `p` allows day `hari` in the given session.
    pub fn is_available(p: &TimePreferenceRequest, hari: u64, evening: bool) -> (r: bool)
        ensures
            r == available(*p, hari, evening),
    {
        if hari == 1 {
            if evening { p.senin_malam } else { p.senin_pagi }
        } else if hari == 2 {
            if evening { p.selasa_malam } else { p.selasa_pagi }
        } else if hari == 3 {
            if evening { p.rabu_malam } else { p.rabu_pagi }
        } else if hari == 4 {
            if evening { p.kamis_malam } else { p.kamis_pagi }
        } else if hari == 5 {
            if evening { p.jumat_malam } else { p.jumat_pagi }
        } else {
            true
        }
    }
}

/// Evaluation is a function of the timetable and the preferences: two
/// reports of the same timetable agree in every count, pair and sentence.
pub proof fn lemma_evaluation_deterministic(
    prefs: Seq<TimePreferenceRequest>,
    s: Seq<OptimizedCourse>,
    a: ConflictInfo,
    b: ConflictInfo,
)
    requires
        reports(prefs, s, a),
        reports(prefs, s, b),
    ensures
        a.group_conflicts@ == b.group_conflicts@,
        a.preference_conflicts@ == b.preference_conflicts@,
        a.total_conflicts == b.total_conflicts,
        a.conflicts_list@.len() == b.conflicts_list@.len(),
        forall|k: int| 0 <= k < a.conflicts_list@.len() ==> (#[trigger] a.conflicts_list@[k])@ == b.conflicts_list@[k]@,
{
    let g = clash_pairs(s, s.len() as int);
    assert forall|k: int| 0 <= k < a.conflicts_list@.len() implies (#[trigger] a.conflicts_list@[k])@ == b.conflicts_list@[k]@ by {
        if k >= g.len() {
            let j = k - g.len();
            assert(a.conflicts_list@[g.len() + j] == a.conflicts_list@[k]);
            assert(b.conflicts_list@[g.len() + j] == b.conflicts_list@[k]);
        }
    }
}

} // verus!
