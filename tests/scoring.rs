use timetable_pso::evaluator::ScheduleChecker;
use timetable_pso::model::{OptimizedCourse, TimePreferenceRequest};

fn placed(id: u64, dosen: u64, hari: u64, mulai: u64, akhir: u64, ruangan: u64, waktu: u64) -> OptimizedCourse {
    OptimizedCourse {
        id_jadwal: id,
        id_matkul: id,
        id_dosen: dosen,
        id_kelas: id,
        id_waktu: waktu,
        hari,
        jam_mulai: mulai,
        jam_akhir: akhir,
        ruangan,
        semester: 1,
        sks: (akhir - mulai) / 40,
        prodi: 7,
    }
}

fn all_free(id: u64) -> TimePreferenceRequest {
    TimePreferenceRequest {
        id_dosen: id,
        senin_pagi: true,
        senin_malam: true,
        selasa_pagi: true,
        selasa_malam: true,
        rabu_pagi: true,
        rabu_malam: true,
        kamis_pagi: true,
        kamis_malam: true,
        jumat_pagi: true,
        jumat_malam: true,
    }
}

#[test]
fn room_clash_is_reported() {
    let checker = ScheduleChecker::new(vec![]);
    let s = vec![placed(1, 1, 2, 480, 600, 3, 1), placed(2, 2, 2, 560, 680, 3, 1)];
    let (fitness, info) = checker.calculate_fitness(&s);
    assert_eq!(fitness, 1);
    assert_eq!(info.total_conflicts, 1);
    assert_eq!(info.group_conflicts, vec![((7, 1, 1), (7, 1, 2))]);
    assert_eq!(info.conflicts_list, vec!["Bentrok jadwal antara kelompok (7, 1, 1) dan (7, 1, 2)".to_string()]);
}

#[test]
fn lecturer_clash_is_reported() {
    let checker = ScheduleChecker::new(vec![]);
    let s = vec![placed(1, 9, 3, 480, 600, 1, 1), placed(2, 9, 3, 500, 540, 2, 1), placed(3, 9, 4, 500, 540, 2, 1)];
    let (fitness, info) = checker.calculate_fitness(&s);
    assert_eq!(fitness, 1);
    assert_eq!(info.group_conflicts.len(), 1);
}

#[test]
fn touching_sections_do_not_clash() {
    let checker = ScheduleChecker::new(vec![]);
    let s = vec![placed(1, 1, 1, 480, 600, 1, 1), placed(2, 1, 1, 600, 720, 1, 1)];
    assert_eq!(checker.calculate_fitness(&s).0, 0);
}

#[test]
fn preference_violation_is_reported() {
    let mut p = all_free(5);
    p.rabu_malam = false;
    let checker = ScheduleChecker::new(vec![p, all_free(6)]);
    let s = vec![placed(1, 5, 3, 1080, 1200, 1, 2), placed(2, 5, 3, 480, 600, 2, 1), placed(3, 6, 3, 1080, 1200, 3, 2)];
    let (fitness, info) = checker.calculate_fitness(&s);
    assert_eq!(fitness, 1);
    assert_eq!(info.preference_conflicts, vec![5]);
    assert!(info.group_conflicts.is_empty());
    assert_eq!(info.conflicts_list.len(), 1);
    assert_eq!(info.conflicts_list[0], "Dosen 5 dijadwalkan pada waktu yang tidak tersedia");
}

#[test]
fn both_kinds_add_up() {
    let mut p = all_free(1);
    p.senin_pagi = false;
    let checker = ScheduleChecker::new(vec![p]);
    let s = vec![placed(1, 1, 1, 480, 600, 1, 1), placed(2, 2, 1, 480, 600, 1, 1)];
    let (fitness, info) = checker.calculate_fitness(&s);
    assert_eq!(fitness, 2);
    assert_eq!(info.total_conflicts, 2);
    assert_eq!(info.conflicts_list.len(), 2);
    assert_ne!(info.conflicts_list[0], info.conflicts_list[1]);
}

#[test]
fn evaluation_is_deterministic() {
    let mut p = all_free(2);
    p.kamis_pagi = false;
    let checker = ScheduleChecker::new(vec![p]);
    let s = vec![placed(1, 2, 4, 480, 600, 1, 1), placed(2, 2, 4, 520, 600, 2, 1), placed(3, 3, 4, 500, 520, 1, 1)];
    let (f1, a) = checker.calculate_fitness(&s);
    let (f2, b) = checker.calculate_fitness(&s);
    assert_eq!(f1, f2);
    assert_eq!(a.total_conflicts, b.total_conflicts);
    assert_eq!(a.group_conflicts, b.group_conflicts);
    assert_eq!(a.conflicts_list, b.conflicts_list);
    assert_eq!(f1, 4);
}

#[test]
fn empty_timetable_scores_zero() {
    let checker = ScheduleChecker::new(vec![all_free(1)]);
    let (fitness, info) = checker.calculate_fitness(&vec![]);
    assert_eq!(fitness, 0);
    assert_eq!(info.total_conflicts, 0);
}

#[test]
fn first_preference_entry_wins() {
    let mut p = all_free(4);
    p.jumat_pagi = false;
    let checker = ScheduleChecker::new(vec![p, all_free(4)]);
    assert_eq!(checker.preference_for(4), Some(p));
    assert_eq!(checker.preference_for(8), None);
    assert!(!ScheduleChecker::is_available(&p, 5, false));
    assert!(ScheduleChecker::is_available(&p, 5, true));
    assert!(ScheduleChecker::is_available(&p, 6, false));
}
