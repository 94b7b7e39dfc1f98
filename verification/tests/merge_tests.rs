use sample_pipeline::merge::{gpu_total_checked, merge_all, Merger};
use sample_pipeline::record::TransferRecord;

fn row(id: u64, lat: u64, gpu: u64) -> TransferRecord {
    TransferRecord { id, api_duration: 100, latency: lat, gpu_duration: gpu }
}

#[test]
fn equal_ids_merge_into_one_record() {
    // Two rows of one transfer: latency is the maximum, GPU time the sum.
    let rows = vec![row(1, 5, 10), row(1, 7, 3)];
    let merged = merge_all(&rows);
    assert_eq!(merged.len(), 1);
    assert_eq!(merged[0], TransferRecord { id: 1, api_duration: 100, latency: 7, gpu_duration: 13 });
}

#[test]
fn distinct_ids_stay_separate() {
    let rows = vec![row(1, 5, 10), row(2, 7, 3)];
    let merged = merge_all(&rows);
    assert_eq!(merged, rows);
}

#[test]
fn api_duration_comes_from_the_first_row() {
    let first = TransferRecord { id: 4, api_duration: 11, latency: 1, gpu_duration: 1 };
    let second = TransferRecord { id: 4, api_duration: 99, latency: 2, gpu_duration: 1 };
    let merged = merge_all(&vec![first, second]);
    assert_eq!(merged.len(), 1);
    assert_eq!(merged[0].api_duration, 11);
}

#[test]
fn three_way_group_merges_left_to_right() {
    let rows = vec![row(6, 1, 10), row(6, 9, 20), row(6, 4, 30)];
    let merged = merge_all(&rows);
    assert_eq!(merged.len(), 1);
    assert_eq!(merged[0].latency, 9);
    assert_eq!(merged[0].gpu_duration, 60);
}

#[test]
fn nonadjacent_equal_ids_do_not_merge() {
    // Merging is keyed on adjacency: an id seen again later starts a new
    // record.
    let rows = vec![row(1, 5, 10), row(2, 6, 20), row(1, 7, 30)];
    let merged = merge_all(&rows);
    assert_eq!(merged.len(), 3);
}

#[test]
fn gpu_total_is_preserved() {
    let rows = vec![row(1, 1, 7), row(1, 2, 8), row(2, 3, 9), row(3, 4, 6), row(3, 5, 5)];
    let before: u64 = rows.iter().map(|r| r.gpu_duration).sum();
    let merged = merge_all(&rows);
    let after: u64 = merged.iter().map(|r| r.gpu_duration).sum();
    assert_eq!(before, after);
    assert_eq!(after, 35);
}

#[test]
fn merge_count_bound() {
    let rows = vec![row(1, 1, 1), row(1, 1, 1), row(2, 1, 1)];
    assert_eq!(merge_all(&rows).len(), 2);
    let distinct = vec![row(1, 1, 1), row(2, 1, 1), row(3, 1, 1)];
    assert_eq!(merge_all(&distinct).len(), distinct.len());
}

#[test]
fn merging_nothing_yields_nothing() {
    assert_eq!(merge_all(&Vec::new()), Vec::new());
}

#[test]
fn merger_machine_emits_on_id_change_only() {
    let mut m = Merger::new();
    assert_eq!(m.push(row(1, 5, 10)), None);
    assert_eq!(m.push(row(1, 7, 3)), None);
    let emitted = m.push(row(2, 4, 6)).unwrap();
    assert_eq!(emitted.latency, 7);
    assert_eq!(emitted.gpu_duration, 13);
    let last = m.finish().unwrap();
    assert_eq!(last, row(2, 4, 6));
}

#[test]
fn merger_finish_on_empty_input() {
    let m = Merger::new();
    assert_eq!(m.finish(), None);
}

#[test]
fn gpu_total_checked_sums() {
    let rows = vec![row(1, 1, 10), row(2, 1, 20)];
    assert_eq!(gpu_total_checked(&rows), Some(30));
}

#[test]
fn gpu_total_checked_detects_overflow() {
    let rows = vec![row(1, 1, u64::MAX), row(2, 1, 1)];
    assert_eq!(gpu_total_checked(&rows), None);
}
