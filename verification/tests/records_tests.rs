use sequintools::records::AlignmentData;
use sequintools::records::Contig;
use sequintools::records::Rec;

fn default_contigs() -> Vec<Contig> {
    vec![
        Contig { name: "chr1".to_owned(), length: 5000 },
        Contig { name: "chr2".to_owned(), length: 5000 },
        Contig { name: "chr3".to_owned(), length: 5000 },
        Contig { name: "chrQ_mirror".to_owned(), length: 9800 },
    ]
}

fn mock_reader(records: Vec<Rec>) -> AlignmentData {
    AlignmentData { contigs: default_contigs(), records }
}

#[test]
fn test_reader_basic() {
    let reader = mock_reader(vec![]);
    assert_eq!(reader.fetch_all().len(), 0);
    assert_eq!(reader.target_count(), 4);
}

#[test]
fn test_reader_with_records() {
    let records = vec![Rec::new(0, 100, "read1", 100), Rec::new(1, 100, "read2", 100)];
    let reader = mock_reader(records);
    let all = reader.fetch_all();
    assert_eq!(all.len(), 2);
    assert_eq!(all[0].pos, 100);
}

#[test]
fn test_reader_header_access() {
    let reader = mock_reader(vec![]);
    assert_eq!(reader.tid("chr1"), Some(0));
    assert_eq!(reader.tid("chr2"), Some(1));
    assert_eq!(reader.tid("chr3"), Some(2));
    assert_eq!(reader.tid("chrQ_mirror"), Some(3));
    assert_eq!(reader.tid("chrX"), None);
    assert_eq!(reader.contigs[3].length, 9800);
    assert_eq!(reader.contigs[0].length, 5000);
}

#[test]
fn test_fetch_region_bounds() {
    let records = vec![
        Rec::new(2, 99, "read1", 100),
        Rec::new(2, 100, "read2", 100),
        Rec::new(2, 199, "read3", 100),
        Rec::new(2, 200, "read4", 100),
        Rec::new(0, 150, "read5", 100),
    ];
    let reader = mock_reader(records);
    let fetched = reader.fetch_region(2, 100, 200);
    let names: Vec<&str> = fetched.iter().map(|r| r.qname.as_str()).collect();
    assert_eq!(names, vec!["read2", "read3"]);
}

#[test]
fn test_fetch_contig() {
    let records = vec![
        Rec::new(0, 10, "read1", 100),
        Rec::new(1, 20, "read2", 100),
        Rec::new(0, 30, "read3", 100),
    ];
    let reader = mock_reader(records);
    let fetched = reader.fetch_contig(0);
    assert_eq!(fetched.len(), 2);
    assert_eq!(fetched[0].qname, "read1");
    assert_eq!(fetched[1].qname, "read3");
}

#[test]
fn test_record_duplicate_copies_value() {
    let mut r = Rec::new(1, 42, "read1", 75);
    r.mapq = 13;
    r.flags = 99;
    let d = r.duplicate();
    assert_eq!(d.qname, r.qname);
    assert_eq!(d.tid, r.tid);
    assert_eq!(d.pos, r.pos);
    assert_eq!(d.mapq, r.mapq);
    assert_eq!(d.flags, r.flags);
    assert_eq!(d.cigar, r.cigar);
}
