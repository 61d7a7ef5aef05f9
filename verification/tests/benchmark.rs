use apotheosis::bytes::to_le64;
use apotheosis::datalayer::algorithms::{NormalDistance, TlshHash};
use apotheosis::harness::cache::{
    judge_hashes, judge_model, judge_truth, read_nearest, read_truth, write_nearest, write_truth,
    CachedModel, Neighbors, Reason, Verdict,
};
use apotheosis::harness::dataset::{
    drop_repeated, plan_slices, read_hashes_from_json, read_ssdeep_candidates, read_tlsh_hashes,
    select_valid, ssdeep_cache_path, tlsh_cache_path, PlanError, SlicePlan,
};
use apotheosis::harness::fingerprint::{
    dataset_signature, fingerprint_slices, fnv1a64, FNV_OFFSET,
};
use apotheosis::harness::score::{score_nearest, score_query, NearestScore, QueryScore};
use apotheosis::harness::splitmix::{shuffle, SplitMix64};
use apotheosis::harness::text::{format_fp, join_lines, parse_fp, split_lines};
use apotheosis::harness::truth::{closest, compute_brute, top_k};

const T: &str = "T1008100007FFA5C48F0F33EB5AEB455158576FE205AB2CA6D51A4828F24B2B408961F3B";

fn strings(list: &[&str]) -> Vec<String> {
    list.iter().map(|s| s.to_string()).collect()
}

#[test]
fn splitmix_outputs() {
    let mut r = SplitMix64::new(0);
    assert_eq!(r.next_u64(), 0xE220_A839_7B1D_CDAF);
    let mut r = SplitMix64::new(1_234_567);
    assert_eq!(r.next_u64(), 6_457_827_717_110_365_317);
    assert_eq!(r.next_u64(), 3_203_168_211_198_807_973);
    assert_eq!(r.next_u64(), 9_817_491_932_198_370_423);
}

#[test]
fn shuffle_is_fixed_by_the_seed() {
    let all: Vec<String> = (0..20).map(|i| i.to_string()).collect();
    let mut a = all.clone();
    let mut b = all.clone();
    shuffle(&mut a, 42);
    shuffle(&mut b, 42);
    assert_eq!(a, b);
    assert_ne!(a, all);
    // the same by hand
    let mut c = all.clone();
    let mut r = SplitMix64::new(42);
    for i in (1..c.len()).rev() {
        let j = (r.next_u64() % (i as u64 + 1)) as usize;
        c.swap(i, j);
    }
    assert_eq!(a, c);
    a.sort();
    let mut sorted = all;
    sorted.sort();
    assert_eq!(a, sorted);
    let mut none: Vec<String> = vec![];
    shuffle(&mut none, 1);
    assert!(none.is_empty());
}

#[test]
fn fnv_outputs() {
    assert_eq!(fnv1a64(b"", FNV_OFFSET), 0xcbf2_9ce4_8422_2325);
    assert_eq!(fnv1a64(b"a", FNV_OFFSET), 0xaf63_dc4c_8601_ec8c);
    assert_eq!(fnv1a64(b"foobar", FNV_OFFSET), 0x8594_4171_f739_67e8);
    assert_eq!(fnv1a64(b"bar", fnv1a64(b"foo", FNV_OFFSET)), fnv1a64(b"foobar", FNV_OFFSET));
}

#[test]
fn fingerprints_tell_lists_apart() {
    let a = strings(&["ab", "c"]);
    let b = strings(&["a", "bc"]);
    let fp = fingerprint_slices(&[a.as_slice()]);
    assert_ne!(fp, fingerprint_slices(&[b.as_slice()]));
    assert_ne!(
        fingerprint_slices(&[a.as_slice(), b.as_slice()]),
        fingerprint_slices(&[b.as_slice(), a.as_slice()])
    );
    let mut bytes = 2u64.to_le_bytes().to_vec();
    bytes.extend(b"ab\xffc\xff");
    assert_eq!(fp, fnv1a64(&bytes, FNV_OFFSET));
    assert_eq!(fingerprint_slices(&[]), FNV_OFFSET);
    assert_eq!(to_le64(0x0102_0304_0506_0708), 0x0102_0304_0506_0708u64.to_le_bytes().to_vec());
}

#[test]
fn signatures_of_files() {
    let plain = fnv1a64(b"d.json", FNV_OFFSET);
    assert_eq!(dataset_signature("d.json", None, None), plain);
    assert_eq!(dataset_signature("d.json", None, Some(3)), plain);
    let with_len = fnv1a64(&7u64.to_le_bytes(), plain);
    assert_eq!(dataset_signature("d.json", Some(7), None), with_len);
    assert_eq!(
        dataset_signature("d.json", Some(7), Some(3)),
        fnv1a64(&3u64.to_le_bytes(), with_len)
    );
}

#[test]
fn fingerprints_as_text() {
    assert_eq!(format_fp(0), "0000000000000000");
    assert_eq!(format_fp(0xDEAD_BEEF), "00000000deadbeef");
    assert_eq!(format_fp(u64::MAX), "ffffffffffffffff");
    for fp in [0u64, 1, 0x1234_5678_9abc_def0, u64::MAX] {
        assert_eq!(parse_fp(&format_fp(fp)), Some(fp));
        assert_eq!(format_fp(fp), format!("{fp:016x}"));
    }
    for text in [
        " ff\n", "+1F", "0000000000000000000ff", "", "  ", "+", "-1", "+-1", "1 2", "0x1",
        "10000000000000000", "ffffffffffffffff", "\u{a0}a\u{3000}", "g", "\u{200b}1",
    ] {
        assert_eq!(parse_fp(text), u64::from_str_radix(text.trim(), 16).ok(), "{text:?}");
    }
}

#[test]
fn lines_there_and_back() {
    let list = strings(&["3:a:b", "x", "zz"]);
    assert_eq!(join_lines(&list), list.join("\n"));
    assert_eq!(split_lines(&join_lines(&list)), list);
    assert_eq!(join_lines(&vec![]), "");
    for text in ["", "\n", "a\n", "a\r\nb", "a\n\nb\n", "a\rb\r", "\r\n", "a\r\r\n", "x\n\r"] {
        let expected: Vec<String> = text.lines().map(|l| l.to_string()).collect();
        assert_eq!(split_lines(text), expected, "{text:?}");
    }
}

#[test]
fn tlsh_lists_out_of_json() {
    let data = format!(
        r#"[{{"TLSH":"{T}","x":1}}, {{"TLSH":"TNULL"}}, {{"TLSH":""}}, {{"TLSH":7}}, 3,
            {{"other":"{T}"}}, {{"TLSH":"T1zz"}}, {{"TLSH":"{T}"}}]"#
    );
    assert_eq!(read_tlsh_hashes(&data, "TLSH", false), Some(strings(&[T, T])));
    assert_eq!(read_tlsh_hashes(&data, "TLSH", true), Some(strings(&[T])));
    assert_eq!(read_tlsh_hashes(&data, "other", true), Some(strings(&[T])));
    let keyed = format!(r#"{{"b":{{"TLSH":"{T}"}}, "a":{{"TLSH":"TNULL"}}, "c":"{T}"}}"#);
    assert_eq!(read_tlsh_hashes(&keyed, "TLSH", false), Some(strings(&[T])));
    assert_eq!(read_tlsh_hashes("3", "TLSH", false), Some(vec![]));
    assert_eq!(read_tlsh_hashes("[", "TLSH", false), None);
}

#[test]
fn all_texts_of_an_array() {
    let data = format!(r#"[{{"TLSH":"{T}"}}, {{"TLSH":"TNULL"}}, {{"TLSH":""}}, {{"TLSH":"x"}}]"#);
    assert_eq!(read_hashes_from_json(&data), Some(strings(&[T, "", "x"])));
    assert_eq!(read_hashes_from_json(r#"{"a":{"TLSH":"x"}}"#), Some(vec![]));
    assert_eq!(read_hashes_from_json("nope"), None);
}

#[test]
fn ssdeep_lists_out_of_json() {
    let data = r#"[{"ssdeep":"3:a:b"}, {"ssdeep":"3::"}, {"ssdeep":""}, {"ssdeep":"bad"},
                   {"ssdeep":"3:a:b"}, {}]"#;
    let list = read_ssdeep_candidates(data, "ssdeep").unwrap();
    assert_eq!(list, strings(&["3:a:b", "bad", "3:a:b"]));
    let valid = vec![true, false, true];
    assert_eq!(select_valid(&list, &valid, false), strings(&["3:a:b", "3:a:b"]));
    assert_eq!(select_valid(&list, &valid, true), strings(&["3:a:b"]));
    assert_eq!(read_ssdeep_candidates("{", "ssdeep"), None);
}

#[test]
fn repetitions_are_dropped_in_order() {
    let list = strings(&["b", "a", "b", "", "c", "a", "", "é"]);
    assert_eq!(drop_repeated(&list), strings(&["b", "a", "", "c", "é"]));
}

#[test]
fn slices() {
    let plan = |a, b, c| Ok(SlicePlan { dataset_size: a, query_start: b, query_end: c });
    assert_eq!(plan_slices(100, 80, true, None, 10), plan(80, 80, 90));
    assert_eq!(plan_slices(100, 95, true, None, 10), plan(95, 95, 100));
    assert_eq!(plan_slices(100, 80, true, Some(5), 10), plan(80, 5, 15));
    assert_eq!(plan_slices(100, 0, true, Some(0), 10), plan(100, 0, 10));
    assert_eq!(plan_slices(100, 0, true, None, 10), Err(PlanError::NoQueries));
    assert_eq!(plan_slices(100, 0, false, None, 10), Err(PlanError::EmptyDataset));
    assert_eq!(plan_slices(0, 5, true, None, 10), Err(PlanError::EmptyDataset));
    assert_eq!(plan_slices(100, 80, true, Some(500), 10), Err(PlanError::NoQueries));
    assert_eq!(plan_slices(100, 80, true, Some(90), usize::MAX), plan(80, 90, 100));
}

#[test]
fn names_of_cache_files() {
    let stem = Some("file_hashes".to_string());
    assert_eq!(
        ssdeep_cache_path(&None, &stem, true, Some(42), 42000, 42000, 1000),
        ".brute_cache_ssdeep_file_hashes_dedup_shuf42_42000_42000_1000.json"
    );
    assert_eq!(
        ssdeep_cache_path(&None, &None, false, None, 1, 0, 9),
        ".brute_cache_ssdeep_dataset_all_noshuf_1_0_9.json"
    );
    assert_eq!(
        tlsh_cache_path(&None, &stem, false, 10, 20, 30),
        ".brute_cache_tlsh_file_hashes_all_10_20_30.json"
    );
    let asked = Some("x.json".to_string());
    assert_eq!(ssdeep_cache_path(&asked, &stem, true, None, 1, 2, 3), "x.json");
    assert_eq!(tlsh_cache_path(&asked, &stem, true, 1, 2, 3), "x.json");
}

#[test]
fn the_nearest_by_comparing_with_all() {
    let features: Vec<u32> = vec![10, 30, 20, 30, 5];
    assert_eq!(top_k(&features, &30, 3, &NormalDistance), vec![(1, 0), (3, 0), (2, 10)]);
    assert_eq!(top_k(&features, &30, 0, &NormalDistance), vec![]);
    assert_eq!(
        top_k(&features, &15, 9, &NormalDistance),
        vec![(0, 5), (2, 5), (4, 10), (1, 15), (3, 15)]
    );
    let texts = strings(&["a", "b", "c", "d", "e"]);
    assert_eq!(
        compute_brute(&features, &texts, &30, 2, &NormalDistance),
        vec![(0, "b".to_string()), (0, "d".to_string())]
    );
    assert_eq!(closest(&features, &15, &NormalDistance), (5, Some(0)));
    assert_eq!(closest(&[], &15, &NormalDistance), (u32::MAX, None));
    assert_eq!(closest(&[0u32], &u32::MAX, &NormalDistance), (u32::MAX, None));
}

#[test]
fn verdicts_on_caches() {
    let renew = Verdict::Renew;
    assert_eq!(judge_hashes(false, Some(3), Some(1), 1), Verdict::Use);
    assert_eq!(judge_hashes(false, Some(3), Some(2), 1), renew(Reason::Mismatch));
    assert_eq!(judge_hashes(false, Some(3), None, 1), Verdict::UseAndSign);
    assert_eq!(judge_hashes(false, Some(0), Some(1), 1), renew(Reason::Shape));
    assert_eq!(judge_hashes(true, Some(3), Some(1), 1), renew(Reason::Absent));
    assert_eq!(judge_hashes(false, None, Some(1), 1), renew(Reason::Absent));

    let rows = |v: Vec<usize>| -> Vec<Neighbors> {
        v.iter().map(|&n| vec![(7, "x".to_string()); n]).collect()
    };
    assert_eq!(judge_truth(&rows(vec![5, 5]), 2, 5, Some(1), 1), Verdict::Use);
    assert_eq!(judge_truth(&rows(vec![5, 4]), 2, 5, Some(1), 1), renew(Reason::Shape));
    assert_eq!(judge_truth(&rows(vec![5]), 2, 5, Some(1), 1), renew(Reason::Shape));
    assert_eq!(judge_truth(&rows(vec![5, 5]), 2, 5, Some(2), 1), renew(Reason::Mismatch));
    assert_eq!(judge_truth(&rows(vec![5, 5]), 2, 5, None, 1), Verdict::UseAndSign);

    let model = CachedModel::Records;
    assert_eq!(judge_model(model(9), 10, Some(1), 1), Verdict::Use);
    assert_eq!(judge_model(model(99), 10, Some(1), 1), Verdict::Use);
    assert_eq!(judge_model(model(9), 10, Some(2), 1), renew(Reason::Mismatch));
    assert_eq!(judge_model(model(9), 10, None, 1), Verdict::UseAndSign);
    assert_eq!(judge_model(model(0), 10, None, 1), renew(Reason::Shape));
    assert_eq!(judge_model(model(11), 10, None, 1), renew(Reason::Shape));
    assert_eq!(judge_model(CachedModel::Absent, 10, None, 1), renew(Reason::Absent));
    assert_eq!(judge_model(CachedModel::Unreadable, 10, None, 1), renew(Reason::Unreadable));
}

#[test]
fn scores_of_queries() {
    let row = |v: &[(u32, &str)]| v.iter().map(|&(d, s)| (d, s.to_string())).collect::<Vec<_>>();
    let truth = row(&[(1, "a"), (5, "b"), (9, "c")]);
    assert_eq!(
        score_query(&truth, &row(&[(1, "a"), (5, "x"), (6, "b")]), 2, 100),
        Some(QueryScore { depth: 2, found: 2, exact: 2, incomparable: false })
    );
    assert_eq!(
        score_query(&truth, &truth, 9, 9),
        Some(QueryScore { depth: 3, found: 3, exact: 3, incomparable: true })
    );
    assert_eq!(score_query(&truth, &truth, 0, 100), None);
    assert_eq!(score_query(&vec![], &truth, 3, 100), None);
}

#[test]
fn scores_of_the_nearest() {
    let t = |s: &str| TlshHash::parse(s).unwrap();
    let lower = format!("T1{}", T[2..].to_lowercase());
    let other = T.replace("3B", "3C");
    let answers = vec![(3, t(T)), (4, t(T)), (5, t(T)), (9, t(T))];
    let truth = vec![(3, t(&lower)), (4, t(&other)), (6, t(T))];
    assert_eq!(
        score_nearest(&answers, &truth),
        NearestScore { recall: 2, exact: 1, miss: 1 }
    );
    // What is no digest is not read where the distances differ.
    assert_eq!(
        score_nearest(&vec![(3, t(T))], &vec![(4, TlshHash("?".to_string()))]),
        NearestScore { recall: 0, exact: 0, miss: 1 }
    );
}

#[test]
fn an_incomparable_query_finds_whatever_is_answered() {
    let row = |v: &[(u32, &str)]| v.iter().map(|&(d, s)| (d, s.to_string())).collect::<Vec<_>>();
    let truth = row(&[(40, "a"), (100, "b")]);
    assert_eq!(
        score_query(&truth, &row(&[(100, "x"), (100, "y")]), 2, 100),
        Some(QueryScore { depth: 2, found: 2, exact: 0, incomparable: true })
    );
}

#[test]
fn ground_truth_is_read_as_it_was_written() {
    let renew = Verdict::Renew;
    let rows: Vec<Neighbors> = vec![
        vec![(0, "3:a\"b\\:c".to_string()), (17, "\u{1}\u{e9}\u{1f600}".to_string())],
        vec![(u32::MAX, String::new()), (5, "d".to_string())],
    ];
    let text = write_truth(&rows);
    assert_eq!(read_truth(Some(&text), 2, 2, Some(1), 1), (Verdict::Use, rows.clone()));
    assert_eq!(read_truth(Some(&text), 2, 1, None, 1), (Verdict::UseAndSign, rows.clone()));
    assert_eq!(read_truth(Some(&text), 2, 2, Some(2), 1), (renew(Reason::Mismatch), vec![]));
    assert_eq!(read_truth(Some(&text), 2, 3, Some(1), 1), (renew(Reason::Shape), vec![]));
    assert_eq!(read_truth(Some(&text), 3, 2, Some(1), 1), (renew(Reason::Shape), vec![]));
    assert_eq!(read_truth(None, 2, 2, Some(1), 1), (renew(Reason::Absent), vec![]));
    for bad in ["", "{}", "[[1]]", "[[[-1,\"x\"]]]", "[[[1,2]]]", "[[[1,\"x\"]]"] {
        assert_eq!(read_truth(Some(bad), 1, 0, None, 1), (renew(Reason::Unreadable), vec![]));
    }
    assert_eq!(
        read_truth(Some("[[[3,\"x\"]]]"), 1, 1, Some(1), 1),
        (Verdict::Use, vec![vec![(3, "x".to_string())]])
    );
}

#[test]
fn nearest_neighbours_are_read_as_they_were_written() {
    let row: Neighbors = vec![(4, T.to_string()), (9, "y".to_string())];
    let text = write_nearest(&row);
    assert_eq!(text, format!("[[4,\"{T}\"],[9,\"y\"]]"));
    assert_eq!(read_nearest(Some(&text), 2), (Verdict::Use, row));
    assert_eq!(read_nearest(Some(&text), 3), (Verdict::Renew(Reason::Shape), vec![]));
    assert_eq!(read_nearest(Some("[1]"), 1), (Verdict::Renew(Reason::Unreadable), vec![]));
    assert_eq!(read_nearest(None, 0), (Verdict::Renew(Reason::Absent), vec![]));
}

#[test]
fn rows_of_documents() {
    let read = |data: &str| read_ssdeep_candidates(data, "s");
    assert_eq!(
        read(r#"{"b":{"s":"2"},"a":{"s":"1"},"c":5,"d":{"s":7},"e":{"s":"3::"},"f":{"s":""}}"#),
        Some(strings(&["1", "2"]))
    );
    assert_eq!(
        read(r#"[{"s":"1"},3,null,"x",[{"s":"4"}],{"t":"5"},{"s":"6"}]"#),
        Some(strings(&["1", "6"]))
    );
    for scalar in ["null", "true", "4", "\"s\""] {
        assert_eq!(read(scalar), Some(vec![]));
    }
    assert_eq!(read("[1"), None);
}
