use timetable_pso::decoder::{allocate_rooms, assign_days, assign_times, position_to_schedule, sort_entries_exec};
use timetable_pso::model::CourseRequest;

fn course(id: u64, prodi: u64, semester: u64, kelas: u64, waktu: u64, sks: u64, dosen: u64) -> CourseRequest {
    CourseRequest {
        id_jadwal: id,
        id_matkul: 100 + id,
        id_dosen: dosen,
        id_waktu: waktu,
        id_kelas: kelas,
        semester,
        sks,
        prodi,
    }
}

#[test]
fn four_sections_spread_over_four_days() {
    let courses: Vec<CourseRequest> = (0..4).map(|i| course(i, 1, 1, 1, 1, 3, 10 + i)).collect();
    let day_order = [100_000i64, 900_000, 300_000, 700_000];
    let time_order = [200_000i64, 200_000, 800_000, 800_000];
    let mut position = Vec::new();
    for i in 0..4 {
        position.push(day_order[i]);
        position.push(time_order[i]);
    }
    let schedule = position_to_schedule(&position, &courses, 3);
    assert_eq!(schedule.len(), 4);
    let days: Vec<u64> = schedule.iter().map(|c| c.hari).collect();
    assert_eq!(days, vec![1, 4, 2, 3]);
    for c in &schedule {
        assert_eq!(c.jam_mulai, 480);
        assert_eq!(c.jam_akhir, 600);
        assert_eq!(c.ruangan, 1);
    }
}

#[test]
fn short_position_skips_the_tail() {
    let courses: Vec<CourseRequest> = (0..3).map(|i| course(i, 1, 1, 1, 1, 2, 1)).collect();
    let schedule = position_to_schedule(&vec![1, 2, 3, 4, 5], &courses, 2);
    assert_eq!(schedule.len(), 2);
    assert_eq!(schedule[0].id_jadwal, 0);
    assert_eq!(schedule[1].id_jadwal, 1);
    assert!(position_to_schedule(&vec![7], &courses, 2).is_empty());
}

#[test]
fn rooms_round_robin_over_sorted_keys() {
    let courses = vec![
        course(0, 2, 1, 1, 1, 2, 1),
        course(1, 1, 3, 1, 1, 2, 1),
        course(2, 1, 1, 5, 1, 2, 1),
        course(3, 1, 3, 1, 2, 2, 1),
    ];
    // Sorted keys: (1,1,5) (1,3,1) (2,1,1) take rooms 1, 2, 1 of two.
    assert_eq!(allocate_rooms(&courses, 2), vec![1, 2, 1, 2]);
    assert_eq!(allocate_rooms(&courses, 5), vec![3, 2, 1, 2]);
}

#[test]
fn rooms_do_not_depend_on_position() {
    let courses = vec![
        course(0, 2, 1, 1, 1, 2, 1),
        course(1, 1, 3, 1, 1, 2, 1),
        course(2, 1, 1, 5, 2, 2, 1),
        course(3, 2, 1, 1, 2, 3, 1),
    ];
    let a = position_to_schedule(&vec![1, 9, 5, 3, 8, 2, 4, 6], &courses, 2);
    let b = position_to_schedule(&vec![900_000, 0, 10, 20, 0, 5, 7, 7], &courses, 2);
    let ra: Vec<u64> = a.iter().map(|c| c.ruangan).collect();
    let rb: Vec<u64> = b.iter().map(|c| c.ruangan).collect();
    assert_eq!(ra, rb);
    assert_eq!(ra, allocate_rooms(&courses, 2));
}

#[test]
fn decoding_is_deterministic() {
    let courses: Vec<CourseRequest> = (0..7).map(|i| course(i, 1 + i % 2, 1, 1, 1 + i % 3, 1 + i % 4, i)).collect();
    let position: Vec<i64> = (0..14).map(|i| (i * 7919 % 1000) as i64).collect();
    let a = position_to_schedule(&position, &courses, 3);
    let b = position_to_schedule(&position, &courses, 3);
    assert_eq!(a, b);
}

#[test]
fn overflow_goes_to_friday_and_wraps_in_the_window() {
    let courses: Vec<CourseRequest> = (0..6).map(|i| course(i, 1, 1, 1, 1, 6, i)).collect();
    let position: Vec<i64> = (0..12).map(|i| i as i64).collect();
    let schedule = position_to_schedule(&position, &courses, 1);
    let days: Vec<u64> = schedule.iter().map(|c| c.hari).collect();
    assert_eq!(days, vec![1, 2, 3, 4, 5, 5]);
    assert_eq!((schedule[4].jam_mulai, schedule[4].jam_akhir), (480, 720));
    assert_eq!((schedule[5].jam_mulai, schedule[5].jam_akhir), (480, 720));
}

#[test]
fn evening_sections_use_the_evening_window() {
    let courses = vec![course(0, 1, 1, 1, 2, 2, 1), course(1, 1, 1, 1, 2, 3, 2)];
    let schedule = position_to_schedule(&vec![0, 500, 0, 100], &courses, 4);
    assert_eq!((schedule[1].jam_mulai, schedule[1].jam_akhir), (1080, 1200));
    assert_eq!((schedule[0].jam_mulai, schedule[0].jam_akhir), (1200, 1280));
}

#[test]
fn durations_are_forty_minutes_per_credit() {
    let courses: Vec<CourseRequest> = (0..9).map(|i| course(i, 1, 1, i % 2, 1 + i % 2, 1 + i % 3, i)).collect();
    let position: Vec<i64> = (0..18).map(|i| ((i * 31) % 17) as i64).collect();
    for c in position_to_schedule(&position, &courses, 2) {
        assert_eq!(c.jam_akhir, c.jam_mulai + 40 * c.sks);
        let (start, end) = if c.id_waktu == 2 { (1080, 1320) } else { (480, 720) };
        assert!(c.jam_mulai >= start);
        assert!(c.jam_akhir <= end || c.jam_mulai == start);
    }
}

#[test]
fn entries_sort_stably() {
    let sorted = sort_entries_exec(&vec![(5, 0), (1, 1), (5, 2), (-3, 3), (1, 4)]);
    assert_eq!(sorted, vec![(-3, 3), (1, 1), (1, 4), (5, 0), (5, 2)]);
}

#[test]
fn days_pack_greedily() {
    assert_eq!(assign_days(&vec![3, 3, 3, 3], 3), vec![1, 2, 3, 4]);
    assert_eq!(assign_days(&vec![2, 2, 4, 2], 6), vec![1, 1, 2, 2]);
    assert_eq!(assign_days(&vec![7, 1], 6), vec![5, 5]);
    assert!(assign_days(&vec![], 6).is_empty());
}

#[test]
fn slots_follow_each_other_and_wrap() {
    assert_eq!(assign_times(&vec![2, 2, 3], 480, 720), vec![(480, 560), (560, 640), (480, 600)]);
    assert_eq!(assign_times(&vec![3, 1], 1080, 1320), vec![(1080, 1200), (1200, 1240)]);
}
