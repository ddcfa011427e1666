use vstd::prelude::*;

verus! {

/// Fixed-point scale: one unit of a coordinate, weight or clamp is `1 / SCALE`.
pub const SCALE: i64 = 1_000_000;

/// Largest credit-hour load for which minute arithmetic stays within 64 bits.
pub const MAX_SKS: u64 = 100_000_000_000_000_000;

/// One course section to be placed in the timetable.
#[derive(Clone, Copy, Debug, PartialEq, Eq)]
pub struct CourseRequest {
    pub id_jadwal: u64,
    pub id_matkul: u64,
    pub id_dosen: u64,
    pub id_waktu: u64,
    pub id_kelas: u64,
    pub semester: u64,
    pub sks: u64,
    pub prodi: u64,
}

/// A lecturer's availability: `true` where the lecturer can teach.
#[derive(Clone, Copy, Debug, PartialEq, Eq)]
pub struct TimePreferenceRequest {
    pub id_dosen: u64,
    pub senin_pagi: bool,
    pub senin_malam: bool,
    pub selasa_pagi: bool,
    pub selasa_malam: bool,
    pub rabu_pagi: bool,
    pub rabu_malam: bool,
    pub kamis_pagi: bool,
    pub kamis_malam: bool,
    pub jumat_pagi: bool,
    pub jumat_malam: bool,
}

/// A course section with its day (1 to 5), minutes of day and room.
#[derive(Clone, Copy, Debug, PartialEq, Eq)]
pub struct OptimizedCourse {
    pub id_jadwal: u64,
    pub id_matkul: u64,
    pub id_dosen: u64,
    pub id_kelas: u64,
    pub id_waktu: u64,
    pub hari: u64,
    pub jam_mulai: u64,
    pub jam_akhir: u64,
    pub ruangan: u64,
    pub semester: u64,
    pub sks: u64,
    pub prodi: u64,
}

/// Search parameters. Weights and clamps are fixed-point (see `SCALE`).
#[derive(Clone, Copy, Debug, PartialEq, Eq)]
pub struct PsoParameters {
    pub swarm_size: usize,
    pub max_iterations: usize,
    pub cognitive_weight: i64,
    pub social_weight: i64,
    pub inertia_weight: i64,
    pub velocity_clamp: i64,
    pub position_clamp: i64,
}

/// Largest weight or clamp accepted: one million in real units.
pub const MAX_PARAMETER: i64 = 1_000_000_000_000;

/// A full request: the sections, the search parameters, the preferences and
/// the number of rooms.
#[derive(Clone, Debug)]
pub struct OptimizationRequest {
    pub courses: Vec<CourseRequest>,
    pub parameters: PsoParameters,
    pub time_preferences: Vec<TimePreferenceRequest>,
    pub sum_ruangan: u64,
}

/// A short status message.
#[derive(Clone, Debug)]
pub struct Status {
    pub message: String,
}

/// The (program, semester, room-class) key that rooms are allocated by.
pub type RoomKey = (u64, u64, u64);

/// The (program, semester, room-class, session) key that days are packed by.
pub type GroupKey = (u64, u64, u64, u64);

pub open spec fn room_key(c: CourseRequest) -> RoomKey {
    (c.prodi, c.semester, c.id_kelas)
}

pub open spec fn group_key(c: CourseRequest) -> GroupKey {
    (c.prodi, c.semester, c.id_kelas, c.id_waktu)
}

/// Sections whose credit-hour load keeps all minute arithmetic in range.
pub open spec fn valid_courses(cs: Seq<CourseRequest>) -> bool {
    forall|i: int| 0 <= i < cs.len() ==> cs[i].sks <= MAX_SKS
}

/// Parameters that keep the fixed-point update rule within 64 bits.
pub open spec fn valid_parameters(p: PsoParameters) -> bool {
    &&& p.swarm_size >= 1
    &&& 0 <= p.cognitive_weight <= MAX_PARAMETER
    &&& 0 <= p.social_weight <= MAX_PARAMETER
    &&& 0 <= p.inertia_weight <= MAX_PARAMETER
    &&& 0 <= p.velocity_clamp <= MAX_PARAMETER
    &&& 0 <= p.position_clamp <= MAX_PARAMETER
}

} // verus!
