use extsort::merge_sorter::file::ExecPolicy;
use extsort::merge_sorter::ram;
use extsort::thread_pool::ThreadPool;

#[test]
fn test_merge() {
    let merged = ram::merge([1, 4, 8, 10].as_slice(), [2, 3, 8, 9].as_slice());
    assert_eq!(merged, vec![1, 2, 3, 4, 8, 8, 9, 10]);
}

#[test]
fn test_merge_sort_seq() {
    let unsorted = vec![5, 1, 9, 10, 3, 45, 2, 4, 4, 12];
    let mut sorted = unsorted.clone();
    sorted.sort();
    assert_eq!(ram::merge_sort(&unsorted, 1), sorted)
}

#[test]
fn sequential_entry_point() {
    assert_eq!(ram::merge_sort_seq(&[2, 1]), vec![1, 2]);
    assert_eq!(ram::merge_sort_seq(&[1]), vec![1]);
}

#[test]
fn parallel_entry_point() {
    assert_eq!(ram::merge_sort_par(&[8, 2, 5, 2], 2), vec![2, 2, 5, 8]);
}

#[test]
fn test_merge_sort_par_fixed_threads() {
    let unsorted = vec![5, 1, 9, 10, 3, 45, 2, 4, 4, 12];
    let mut sorted = unsorted.clone();
    sorted.sort();
    assert_eq!(ram::merge_sort(&unsorted, 4), sorted)
}

#[test]
fn test_merge_sort_par_helper_from_pool() {
    let unsorted = vec![9, 9, 1, 0, 4294967295, 17];
    let mut pool = ThreadPool::new(2);
    let sorted = ram::merge_sort_par_helper_from_pool(&unsorted, &mut pool);
    assert_eq!(sorted, vec![0, 1, 9, 9, 17, 4294967295]);
    assert_eq!(pool.available_workers(), 2);
}

#[test]
fn sorts_small_run_single_thread() {
    assert_eq!(ram::merge_sort(&[5, 3, 3, 1], 1), vec![1, 3, 3, 5]);
}

#[test]
fn single_in_ram_path_sorts_file_content() {
    let out = extsort::merge_sorter::file::merge_sort(b"3\n1\n2\n", 1024, 1, ExecPolicy::FullPar);
    assert_eq!(out, b"1\n2\n3\n".to_vec());
}

#[test]
fn split_paths_sort_file_content() {
    // A threshold of one byte forces the split path all the way down.
    let out = extsort::merge_sorter::file::merge_sort_seq(b"3\n1\n2\n", 1);
    assert_eq!(out, b"1\n2\n3\n".to_vec());
}

#[test]
fn threshold_is_strict() {
    let content = b"3\n1\n2\n";
    assert!(!extsort::in_ram_eligible(content.len(), content.len()));
    assert!(extsort::in_ram_eligible(content.len() - 1, content.len()));
    // Either way the sorted bytes are the same.
    let at_threshold = extsort::merge_sorter::file::merge_sort_seq(content, content.len());
    let below_threshold = extsort::merge_sorter::file::merge_sort_seq(content, content.len() + 1);
    assert_eq!(at_threshold, b"1\n2\n3\n".to_vec());
    assert_eq!(below_threshold, b"1\n2\n3\n".to_vec());
}

#[test]
fn all_policies_agree() {
    let input: &[u8] = b"90\n5\n5\n123\n7\n0\n4294967295\n3\n3\n64\n";
    let expected = b"0\n3\n3\n5\n5\n7\n64\n90\n123\n4294967295\n".to_vec();
    let sequential = extsort::merge_sorter::file::merge_sort(input, 8, 1, ExecPolicy::FullPar);
    let full_par = extsort::merge_sorter::file::merge_sort(input, 8, 4, ExecPolicy::FullPar);
    let file_par = extsort::merge_sorter::file::merge_sort(input, 8, 4, ExecPolicy::FilePar);
    let ram_par = extsort::merge_sorter::file::merge_sort(input, 8, 4, ExecPolicy::RamPar);
    assert_eq!(sequential, expected);
    assert_eq!(full_par, expected);
    assert_eq!(file_par, expected);
    assert_eq!(ram_par, expected);
}

#[test]
fn output_keeps_every_parsed_record() {
    // Unparsable tokens are skipped by the loader; every parsed record
    // survives the sort, duplicates included.
    let out = extsort::merge_sorter::file::merge_sort(b"7 jk 3\n1\n7\n", 2, 2, ExecPolicy::FilePar);
    assert_eq!(out, b"1\n3\n7\n7\n".to_vec());
}

#[test]
fn output_is_non_decreasing() {
    let out = extsort::merge_sorter::file::merge_sort(b"9\n2\n9\n4\n0\n", 3, 3, ExecPolicy::RamPar);
    let values = extsort::records::parse_values(&out);
    assert_eq!(values.len(), 5);
    for pair in values.windows(2) {
        assert!(pair[0] <= pair[1]);
    }
}

#[test]
fn empty_input_sorts_to_empty_output() {
    assert_eq!(extsort::merge_sorter::file::merge_sort(b"", 16, 1, ExecPolicy::FullPar), Vec::<u8>::new());
    assert_eq!(ram::merge_sort(&[], 1), Vec::<u32>::new());
}

#[test]
fn external_merge_of_staged_files() {
    let left = extsort::merge_sorter::file::stage_values(vec![1, 4, 8, 10]);
    let right = extsort::merge_sorter::file::stage_values(vec![2, 3, 8, 9]);
    assert_eq!(left.lines_count, 4);
    assert_eq!(left.content, b"1\n4\n8\n10\n".to_vec());
    let merged = extsort::merge_sorter::file::merge(left, right);
    assert_eq!(merged.content, b"1\n2\n3\n4\n8\n8\n9\n10\n".to_vec());
    assert_eq!(merged.lines_count, 8);
}

#[test]
fn checker_approves_sorter_output() {
    let out = extsort::merge_sorter::file::merge_sort(b"8\n6\n7\n5\n3\n0\n9\n", 4, 2, ExecPolicy::FullPar);
    assert_eq!(extsort::checker::is_sorted(&out), Some(true));
}

#[test]
fn equal_records_survive() {
    let out = extsort::merge_sorter::file::merge_sort_seq(b"5\n5\n5\n", 2);
    assert_eq!(out, b"5\n5\n5\n".to_vec());
}
