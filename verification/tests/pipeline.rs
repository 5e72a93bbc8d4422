//! Behavior of the cafq library on concrete values: classification,
//! identifier construction, manifest parsing and rendering, ordering,
//! and the compressed lane merge against real gzip streams.

use cafq::concat::merge_lane_contents;
use cafq::concat::Concat;
use cafq::finder::Finder;
use cafq::merger::parse_input_file;

fn gzip_bytes(data: &[u8]) -> Vec<u8> {
    let mut enc = flate2::write::GzEncoder::new(Vec::new(), flate2::Compression::default());
    std::io::Write::write_all(&mut enc, data).unwrap();
    enc.finish().unwrap()
}

fn gunzip_bytes(data: &[u8]) -> Vec<u8> {
    let mut dec = flate2::bufread::MultiGzDecoder::new(data);
    let mut out = Vec::new();
    std::io::Read::read_to_end(&mut dec, &mut out).unwrap();
    out
}

#[test]
fn parse_input_test() {
    let lines = vec![
        "[seqs_id, path] Total samples: 2".to_string(),
        "sample_one:/data/run1/".to_string(),
        "sample_two:/data/run2/".to_string(),
    ];
    let contents = parse_input_file(&lines).unwrap();
    assert_eq!(2, contents.len());
}

#[test]
fn parse_duplicate_input_test() {
    let lines = vec![
        "[seqs_id, path] Total samples: 3".to_string(),
        "sample_one:/data/run1/".to_string(),
        "sample_two:/data/run2/".to_string(),
        "sample_one:/data/run3/".to_string(),
    ];
    let contents = parse_input_file(&lines).unwrap();
    assert_eq!(2, contents.len());
}

#[test]
fn parse_rejects_line_without_colon() {
    let lines = vec![
        "[seqs_id, path] Total samples: 2".to_string(),
        "sample_one:/data/run1/".to_string(),
        "sample_two /data/run2/".to_string(),
    ];
    let err = parse_input_file(&lines).unwrap_err();
    assert_eq!(2, err.line);
}

#[test]
fn parse_rejects_line_with_extra_field() {
    let lines = vec![
        "[seqs_id, path] Total samples: 1".to_string(),
        "sample_one:/data/run1/:extra".to_string(),
    ];
    let err = parse_input_file(&lines).unwrap_err();
    assert_eq!(1, err.line);
}

#[test]
fn parse_keeps_first_directory_for_duplicate() {
    let lines = vec![
        "[seqs_id, path] Total samples: 2".to_string(),
        "fox:/data/run1/".to_string(),
        "fox:/data/run2/".to_string(),
    ];
    let contents = parse_input_file(&lines).unwrap();
    assert_eq!(1, contents.len());
    assert_eq!("fox", contents[0].0);
    assert_eq!("/data/run1/", contents[0].1);
}

#[test]
fn parse_trims_fields() {
    let lines = vec![
        "[seqs_id, path] Total samples: 1".to_string(),
        "  fox\t: /data/reads/ ".to_string(),
    ];
    let contents = parse_input_file(&lines).unwrap();
    assert_eq!("fox", contents[0].0);
    assert_eq!("/data/reads/", contents[0].1);
}

#[test]
fn regex_lanes_read1_test() {
    let fname = "genus_epithet_unknown_l001_read1_001.fastq.gz";
    let fname2 = "genus_epithet_unknown_l001_read2_001.fastq.gz";
    let test = Concat::new(".", ".", ".");
    assert_eq!(true, test.re_matches_r1(fname));
    assert_eq!(false, test.re_matches_r1(fname2));
}

#[test]
fn regex_lanes_read2_test() {
    let fname = "genus_epithet_unknown_l001_read1_001.fastq.gz";
    let fname2 = "genus_epithet_unknown_l001_read2_001.fastq.gz";
    let test = Concat::new(".", ".", ".");
    assert_eq!(false, test.re_matches_r2(fname));
    assert_eq!(true, test.re_matches_r2(fname2));
}

#[test]
fn output_fname_test() {
    let id = "Genus_ephithet_unknown";
    let path = ".";
    let outdir = "raw_reads";
    let fname = "Genus_ephithet_unknown_R1.fastq.gq";
    let res = "raw_reads/Genus_ephithet_unknown/Genus_ephithet_unknown_R1.fastq.gq";
    let concat = Concat::new(id, path, outdir);
    assert_eq!(res, concat.get_output_fname(fname));
}

#[test]
fn regex_test() {
    let path = "test_files/Finder/";
    let len = 3;
    let sep = '_';
    let re = Finder::new(path, len, sep);
    let zipped_read = "sample_buno_clean_l001_read1_001.fastq.gz";
    let unzipped_read = "sample_buno_clean_l001_read1_001.fastq";
    assert_eq!(true, re.is_lane_file(zipped_read));
    assert_eq!(false, re.is_lane_file(unzipped_read));
}

#[test]
fn regex_false_test() {
    let path = "test_files/Finder/";
    let len = 3;
    let sep = '_';
    let re = Finder::new(path, len, sep);
    let zipped_read = "sample_buno_clean_read1_001.fastq.gz";
    let unzipped_read = "sample_buno_clean_read1_001.fastq";
    assert_eq!(false, re.is_lane_file(zipped_read));
    assert_eq!(false, re.is_lane_file(unzipped_read));
}

#[test]
fn construct_id_test() {
    let path = "test_files/Finder/";
    let len = 3;
    let sep = '_';
    let re = Finder::new(path, len, sep);
    let fnames = "sample_buno_ABCD123_read1.fastq.gz";
    let id = re.construct_id(fnames);
    assert_eq!("sample_buno_ABCD123", id);
}

#[test]
fn identifier_takes_first_tokens() {
    let finder = Finder::new(".", 3, '_');
    assert_eq!("A_B_C", finder.construct_id("A_B_C_D"));
}

#[test]
fn identifier_needs_more_tokens_than_length() {
    let finder = Finder::new(".", 4, '_');
    assert!(finder.try_construct_id("A_B_C_D").is_none());
    let finder3 = Finder::new(".", 3, '_');
    assert_eq!(Some("A_B_C".to_string()), finder3.try_construct_id("A_B_C_D"));
}

#[test]
fn discovery_agrees_with_read_classification() {
    let finder = Finder::new(".", 3, '_');
    let test = Concat::new(".", ".", ".");
    let r1 = "fox_one_l001_read1_001.fastq.gz";
    let r2 = "fox_one_l001_read2_001.fastq.gz";
    assert!(finder.is_lane_file(r1));
    assert!(test.re_matches_r1(r1));
    assert!(finder.is_lane_file(r2));
    assert!(test.re_matches_r2(r2));
}

#[test]
fn merge_order_is_lexicographic_by_path() {
    let mut reads = Concat::new("s", "d", "out");
    let listing = vec![
        "s_l001_r1.fastq.gz".to_string(),
        "s_l003_r1.fastq.gz".to_string(),
        "s_l002_r1.fastq.gz".to_string(),
    ];
    reads.match_path_to_reads(&listing);
    reads.sort_results();
    assert_eq!(
        vec![
            "d/s_l001_r1.fastq.gz".to_string(),
            "d/s_l002_r1.fastq.gz".to_string(),
            "d/s_l003_r1.fastq.gz".to_string(),
        ],
        reads.read_1
    );
}

#[test]
fn round_trip_two_lanes() {
    let first = gzip_bytes(b"@r1 lane one\n");
    let second = gzip_bytes(b"@r1 lane two\n");
    let merged = merge_lane_contents(&vec![first, second]).unwrap();
    assert_eq!(b"@r1 lane one\n@r1 lane two\n".to_vec(), gunzip_bytes(&merged));
}

#[test]
fn merge_of_no_inputs_yields_empty_stream() {
    let merged = merge_lane_contents(&Vec::new()).unwrap();
    assert_eq!(Vec::<u8>::new(), gunzip_bytes(&merged));
}

#[test]
fn merge_rejects_invalid_stream() {
    let good = gzip_bytes(b"data\n");
    let bad = vec![1u8, 2, 3, 4];
    let err = merge_lane_contents(&vec![good, bad]).unwrap_err();
    assert_eq!(1, err.index);
}

#[test]
fn discovery_needs_read_digit_one_or_two() {
    let finder = Finder::new(".", 3, '_');
    assert_eq!(false, finder.is_lane_file("sample_buno_clean_l001_read5_001.fastq.gz"));
    assert_eq!(false, finder.is_lane_file("sample_buno_clean_l001_r0_001.fastq.gz"));
    assert_eq!(true, finder.is_lane_file("sample_buno_clean_l001_read2_001.fastq.gz"));
}

#[test]
fn registry_first_wins_is_path_order() {
    let finder = Finder::new(".", 2, '_');
    // handed in reverse traversal order: the row must still keep the
    // directory of the lexicographically first full path
    let files = vec![
        ("b_x_l002_r1.fastq.gz".to_string(), "/d3".to_string()),
        ("b_x_l001_r1.fastq.gz".to_string(), "/d2".to_string()),
    ];
    let rows = finder.build_registry(&files).unwrap();
    assert_eq!(vec![("b_x".to_string(), "/d2".to_string())], rows);
}

#[test]
fn scenario_fox_two_lanes() {
    let mut reads = Concat::new("fox", "data", "out");
    let listing = vec![
        "fox_l001_read1_001.fastq.gz".to_string(),
        "fox_l001_read2_001.fastq.gz".to_string(),
        "notes.txt".to_string(),
    ];
    let candidates = reads.glob_samples(&listing);
    assert_eq!(2, candidates.len());
    reads.match_path_to_reads(&candidates);
    reads.sort_results();
    assert_eq!(vec!["data/fox_l001_read1_001.fastq.gz".to_string()], reads.read_1);
    assert_eq!(vec!["data/fox_l001_read2_001.fastq.gz".to_string()], reads.read_2);
    assert_eq!("out/fox/fox_R1.fastq.gz", reads.get_output_fname(reads.get_concat_name_r1().as_str()));
    assert_eq!("out/fox/fox_R2.fastq.gz", reads.get_output_fname(reads.get_concat_name_r2().as_str()));
}

#[test]
fn glob_filter_keeps_candidates() {
    let reads = Concat::new("fox", "data", "out");
    let listing = vec![
        "fox.fastq.gz".to_string(),
        "fax_l001_r1.fastq.gz".to_string(),
        "fox_l001_r1.fq.gzip".to_string(),
        "fox_l001_r1.txt".to_string(),
    ];
    let candidates = reads.glob_samples(&listing);
    assert_eq!(
        vec!["fox.fastq.gz".to_string(), "fox_l001_r1.fq.gzip".to_string()],
        candidates
    );
}

#[test]
fn manifest_text_counts_and_lists_rows() {
    let finder = Finder::new(".", 2, '_');
    let rows = vec![
        ("a_one".to_string(), "/x".to_string()),
        ("b_two".to_string(), "/y".to_string()),
    ];
    let text = finder.manifest_text(&rows);
    assert_eq!("[seqs_id, path] Total samples: 2\na_one:/x/\nb_two:/y/\n", text);
}

#[test]
fn registry_first_wins_and_sorts_rows() {
    let finder = Finder::new(".", 2, '_');
    let files = vec![
        ("b_x_l001_r1.fastq.gz".to_string(), "/d2".to_string()),
        ("a_y_l001_r1.fastq.gz".to_string(), "/d1".to_string()),
        ("b_x_l002_r1.fastq.gz".to_string(), "/d3".to_string()),
    ];
    let rows = finder.build_registry(&files).unwrap();
    assert_eq!(
        vec![
            ("a_y".to_string(), "/d1".to_string()),
            ("b_x".to_string(), "/d2".to_string()),
        ],
        rows
    );
}

#[test]
fn registry_rejects_short_name() {
    let finder = Finder::new(".", 4, '_');
    let files = vec![("a_l001_r1.gz".to_string(), "/d".to_string())];
    let err = finder.build_registry(&files).unwrap_err();
    assert_eq!("a_l001_r1.gz", err.fname);
}

#[test]
fn registry_ignores_unrelated_files() {
    let finder = Finder::new(".", 2, '_');
    let files = vec![
        ("notes.txt".to_string(), "/d".to_string()),
        ("a_y_read1_001.fastq.gz".to_string(), "/d".to_string()),
    ];
    let rows = finder.build_registry(&files).unwrap();
    assert_eq!(0, rows.len());
}

#[test]
fn manifest_header_line_is_skipped() {
    let lines = vec!["fox:/data/run1/".to_string()];
    let contents = parse_input_file(&lines).unwrap();
    assert_eq!(0, contents.len());
}
