use sequintools::region::clip_regions;
use sequintools::region::load_from_bed;
use sequintools::region::Region;

#[test]
fn display_region() {
    let region = Region {
        contig: "chr1".to_owned(),
        beg: 100,
        end: 200,
        name: "test_region".to_owned(),
    };
    assert_eq!(region.to_string(), "chr1:100-200");

    let region2 = Region {
        contig: "chrX".to_owned(),
        beg: 0,
        end: 1000,
        name: "test_region2".to_owned(),
    };
    assert_eq!(region2.to_string(), "chrX:0-1000");
}

#[test]
fn load_bed_to_vec() {
    let data = b"chr1\t1\t10\treg1";
    let result = load_from_bed(data).unwrap();
    assert_eq!(
        result,
        vec![Region {
            contig: "chr1".to_owned(),
            beg: 1,
            end: 10,
            name: "reg1".to_owned()
        }]
    );
}

#[test]
fn load_multi_lines_bed() {
    let result = load_from_bed(b"chr1\t1\t10\treg1\nchr2\t2\t20\treg2").unwrap();
    assert_eq!(
        result,
        vec![
            Region {
                contig: "chr1".to_owned(),
                beg: 1,
                end: 10,
                name: "reg1".to_owned()
            },
            Region {
                contig: "chr2".to_owned(),
                beg: 2,
                end: 20,
                name: "reg2".to_owned()
            }
        ]
    );
}

#[test]
fn load_with_bad_start() {
    let err = load_from_bed(b"chr1\txxx\t10\treg1").unwrap_err();
    assert!(err
        .to_string()
        .contains("Beg column is not an integer: is xxx (line = 1)"));
}

#[test]
fn load_with_bad_end() {
    let err = load_from_bed(b"chr1\t1\txxx\treg1").unwrap_err();
    assert!(err
        .to_string()
        .contains("End column is not an integer: is xxx (line = 1)"));
}

#[test]
fn load_without_name() {
    let err = load_from_bed(b"chr1\t1\t10").unwrap_err();
    assert!(err
        .to_string()
        .contains("Incorrect number of columns detected, expected >= 4 found 3"));
}

#[test]
fn load_invalid_bytes() {
    let result = load_from_bed(&[0xff, 0xfe, 0x20]);
    assert!(result.is_err());
    assert!(result
        .unwrap_err()
        .to_string()
        .contains("stream did not contain valid UTF-8"));
}

#[test]
fn load_trailing_newline_and_extra_columns() {
    let result = load_from_bed(b"chr1 5 15 reg1 extra stuff\n").unwrap();
    assert_eq!(result.len(), 1);
    assert_eq!(result[0].beg, 5);
    assert_eq!(result[0].end, 15);
    assert_eq!(result[0].name, "reg1");
}

#[test]
fn test_clip_regions() {
    let regions = vec![
        Region::new("chrQ_mirror", 100, 900, "region1"),
        Region::new("chr2", 200, 800, "region2"),
    ];

    let clipped = clip_regions(&regions, 50).unwrap();

    assert_eq!(clipped.len(), 2);
    assert_eq!(clipped[0].beg, 150);
    assert_eq!(clipped[0].end, 850);
    assert_eq!(clipped[1].beg, 250);
    assert_eq!(clipped[1].end, 750);
}

#[test]
fn test_clip_regions_zero_flank() {
    let regions = vec![Region::new("chrQ_mirror", 100, 900, "region1")];

    let clipped = clip_regions(&regions, 0).unwrap();

    assert_eq!(clipped[0].beg, 100);
    assert_eq!(clipped[0].end, 900);
}

#[test]
fn test_clip_regions_empties_region() {
    let regions = vec![Region::new("chr1", 100, 200, "region1")];
    assert!(clip_regions(&regions, 50).is_err());
    assert!(clip_regions(&regions, 150).is_err());
}
