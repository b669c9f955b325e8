use smitten::{IDVersion, Identifier};


fn run_convert_id_test(
    id: &str,
    coord_type: &str,
    exp_outcome: &str,
    exp_version: Option<IDVersion>,
    exp_v2_format: &str,
) {
    let zbho = coord_type == "zbho";
    let result = Identifier::from_unknown_format(id, zbho);

    match (result.clone(), exp_outcome, exp_version.clone()) {
        // Expected pass case
        (Ok((converted_id, version)), "pass", Some(expected_version)) => {
            assert_eq!(version, expected_version, "IDVersion mismatch for ID: {}", id);
            assert_eq!(converted_id.to_string(), exp_v2_format, "V2 format mismatch for ID: {}", id);
        }
        // Expected failure with None as version
        (Err(err), "fail", None) => {
            println!("Expected failure for ID: {}. Error message: {:?}", id, err);
        }
        // Expected failure with Some(Undefined) as version
        (Err(err), "fail", Some(IDVersion::Undefined)) => {
            println!("Expected specific failure for ID: {}. Error message: {:?}", id, err);
        }
        // Unexpected success when failure was expected
        (Ok((converted_id, version)), "fail", _) => {
            panic!(
                "Unexpected success for ID: {}. Expected outcome: fail, but got success with V2 ID: '{:?}' and version: {:?}",
                id, converted_id, version
            );
        }
        // Unexpected failure when pass was expected
        (Err(err), "pass", Some(expected_version)) => {
            panic!(
                "Unexpected failure for ID: {}. Expected outcome: pass, version: {:?}. Error: {:?}",
                id, expected_version, err
            );
        }
        // Catch-all for any unexpected outcome
        _ => panic!(
            "Unexpected outcome for ID: {}. Expected outcome: {}, version: {:?}, but got result: {:?}",
            id, exp_outcome, exp_version, result
        ),
    }
}

#[test]
fn test_convert_id() {
    let test_cases = vec![
        // V0 Examples
        ("chr1_100_200", "obfc", "pass", Some(IDVersion::V0), "chr1:100-200_+"),
        ("seq_100_200_R", "obfc", "pass", Some(IDVersion::V0), "seq:100-200_-"),
        ("(ACC)n#Simple_1_10", "obfc", "pass", Some(IDVersion::V0), "(ACC)n#Simple:1-10_+"),
        ("chr_1_100_200_10_20_R", "obfc", "pass", Some(IDVersion::V0), "chr_1:100-200_+:10-20_-"),
        ("AMM1015_1000_2000_R_1_10_R", "obfc", "pass", Some(IDVersion::V0), "AMM1015:1000-2000_-:1-10_-"),
        ("hg38:chr1_100_200", "obfc", "pass", Some(IDVersion::V0), "hg38:chr1:100-200_+"),
        ("hg38:chr1_100_200_R", "obfc", "pass", Some(IDVersion::V0), "hg38:chr1:100-200_-"),
        ("1_2000_3000_400_500_60_70_8_9", "obfc", "pass", Some(IDVersion::V0), "1:2000-3000_+:400-500_+:60-70_+:8-9_+"),
        ("chr;1_100_200", "obfc", "pass", Some(IDVersion::V0), "chr;1:100-200_+"),
        ("chr_1_100_200_150_200_R", "obfc", "fail", Some(IDVersion::Undefined), ""),
        ("HSPA2_0_0", "obfc", "fail", Some(IDVersion::Undefined), ""),
        ("chr2_200_100", "obfc", "fail", Some(IDVersion::Undefined), ""),
        ("NT_004321_0", "obfc", "fail", Some(IDVersion::Undefined), ""),
        ("chr13:51174549-51174548_R", "obfc", "fail", Some(IDVersion::Undefined), ""),
        ("_100_200", "obfc", "fail", Some(IDVersion::Undefined), ""),
        ("AMM::1002:Seq1:100_200", "obfc", "fail", Some(IDVersion::Undefined), ""),
        (":_100_200", "obfc", "fail", Some(IDVersion::Undefined), ""),
        // V1 Examples
        ("chr1:1-200", "obfc", "pass", Some(IDVersion::V1), "chr1:1-200_+"),
        ("chr1:200-1", "obfc", "pass", Some(IDVersion::V1), "chr1:1-200_-"),
        ("GCA1:chr2:540133-28232", "obfc", "pass", Some(IDVersion::V1), "GCA1:chr2:28232-540133_-"),
        ("chr1:200-1:10-5", "obfc", "pass", Some(IDVersion::V1), "chr1:1-200_-:5-10_-"),
        ("(ACC)n#Simple:400-500:20-1", "obfc", "pass", Some(IDVersion::V1), "(ACC)n#Simple:400-500_+:1-20_-"),
        ("seq1@*@)(_:1-200", "obfc", "pass", Some(IDVersion::V1), "seq1@*@)(_:1-200_+"),
        ("1:2000-3000:400-500:60-70:8-9", "obfc", "pass", Some(IDVersion::V1), "1:2000-3000_+:400-500_+:60-70_+:8-9_+"),
        ("PB2_4_8_8:2709-6535", "obfc", "pass", Some(IDVersion::V1), "PB2_4_8_8:2709-6535_+"),
        ("chromosome___:0-10", "zbho", "pass", Some(IDVersion::V1), "chromosome___:1-10_+"),
        ("chr_1:100-200:200-150", "obfc", "fail", Some(IDVersion::Undefined), ""),
        ("ASeq:0-0", "obfc", "fail", Some(IDVersion::Undefined), ""),
        ("chr1:200-1:10-5_+", "obfc", "fail", Some(IDVersion::Undefined), ""),
        ("chr1:200-1_+", "obfc", "fail", Some(IDVersion::Undefined), ""),
        ("hg38:chr1:200-100_-", "obfc", "fail", Some(IDVersion::Undefined), ""),
        ("AMM::1002:Seq1:100-200", "obfc", "fail", Some(IDVersion::Undefined), ""),
        ("::100-200", "obfc", "fail", Some(IDVersion::Undefined), ""),
        // V2 Examples
        ("chr1:100-200_+", "obfc", "pass", Some(IDVersion::V2), "chr1:100-200_+"),
        ("chr1_1_5_3:1-3_+", "obfc", "pass", Some(IDVersion::V2), "chr1_1_5_3:1-3_+"),
        ("chr1:100-200_+", "obfc", "pass", Some(IDVersion::V2), "chr1:100-200_+"),
        ("hg38:chr1:100-200_+", "obfc", "pass", Some(IDVersion::V2), "hg38:chr1:100-200_+"),
        ("hg38:chr1:100-200_-", "obfc", "pass", Some(IDVersion::V2), "hg38:chr1:100-200_-"),
        ("hg38:chr1:100-200_+:10-50_-:1-5_+", "obfc", "pass", Some(IDVersion::V2), "hg38:chr1:100-200_+:10-50_-:1-5_+"),
        ("hg38:chr1:200-200_-", "obfc", "pass", Some(IDVersion::V2), "hg38:chr1:200-200_-"),
        ("hg38:chr1:33438223-33439283_+", "zbho", "pass", Some(IDVersion::V2), "hg38:chr1:33438224-33439283_+"),
        ("JANCRE010000006.1:5563658-5564462_-:1-458_+", "obfc", "pass", Some(IDVersion::V2), "JANCRE010000006.1:5563658-5564462_-:1-458_+"),
        ("JANCRE010000006.1_5563658_5564462_R:1-458_+", "obfc", "pass", Some(IDVersion::V2), "JANCRE010000006.1_5563658_5564462_R:1-458_+"),
        ("hg_38:chr+1:10-40_+", "obfc", "pass", Some(IDVersion::V2), "hg_38:chr+1:10-40_+"),
        ("hg-38:chr_1:10-40_+", "obfc", "pass", Some(IDVersion::V2), "hg-38:chr_1:10-40_+"),
        // Unrecognizable Examples
        ("seq1_ 1_2", "obfc", "fail", Some(IDVersion::Undefined), ""),
        ("seq1:1-2\n_+", "obfc", "fail", Some(IDVersion::Undefined), ""),
        ("chr1", "obfc", "pass", Some(IDVersion::Undefined), "chr1"),
        ("hg38:chr1", "obfc", "pass", Some(IDVersion::Undefined), "hg38:chr1"),
        ("100_200", "obfc", "pass", Some(IDVersion::Undefined), "100_200"),
        ("100-200", "obfc", "pass", Some(IDVersion::Undefined), "100-200"),
        ("100:200", "obfc", "pass", Some(IDVersion::Undefined), "100:200"),
        ("100:200:", "obfc", "fail", Some(IDVersion::Undefined), ""),
        ("100:200:seq:", "obfc", "fail", Some(IDVersion::Undefined), ""),
    ];

    for (id, coord_type, exp_outcome, exp_version, exp_v2_format) in test_cases {
        run_convert_id_test(id, coord_type, exp_outcome, exp_version, exp_v2_format);
    }
}

fn run_parse_id_test(
id: &str,
expected_outcome: &str,
expected_assembly: &str,
expected_sequence_id: &str,
expected_ranges: Vec<(usize, usize, char)>,
expected_version: Option<IDVersion>,
expected_normalization: &str,
) {
let result = Identifier::from_v2(id);

match (result.as_ref(), expected_outcome, expected_version.clone()) {
    // Expected pass case
    (Ok(parsed_id), "pass", Some(expected_version)) => {
        println!("Parsed ID: {:?}", parsed_id); // Debug output for parsed ID
        assert_eq!(
            parsed_id.assembly_id.as_deref().unwrap_or(""),
            expected_assembly,
            "Assembly mismatch for ID: {}", id
        );
        assert_eq!(parsed_id.sequence_id, expected_sequence_id, "Sequence ID mismatch for ID: {}", id);
        assert_eq!(parsed_id.inferred_version, expected_version, "IDVersion mismatch for ID: {}", id);

        let parsed_ranges: Vec<(usize, usize, char)> = parsed_id
            .ranges
            .iter()
            .map(|r| (r.start, r.end, r.orientation))
            .collect();
        assert_eq!(parsed_ranges, expected_ranges, "Range mismatch for ID: {}", id);

        // Normalization check if expected_normalization is provided
        if !expected_normalization.is_empty() {
            match parsed_id.normalize() {
                Ok(normalized_id) => {
                    assert_eq!(normalized_id.to_string(), expected_normalization, "Normalization mismatch for ID: {}", id);
                }
                Err(err) => {
                    panic!("Normalization failed for ID: {}. Error: {:?}", id, err);
                }
            }
        }



    }
    // Expected failure case
    (Err(err), "fail", None) => {
        println!("Expected failure for ID: {}. Error message: {:?}", id, err);
    }
    // Unexpected success when failure was expected
    (Ok(parsed_id), "fail", _) => {
        panic!(
            "Unexpected success for ID: {}. Expected outcome: fail, but got success with Assembly: '{:?}', Sequence ID: '{}', Ranges: {:?}, IDVersion: {:?}",
            id, parsed_id.assembly_id, parsed_id.sequence_id, parsed_id.ranges, parsed_id.inferred_version
        );
    }
    // Unexpected failure when pass was expected
    (Err(err), "pass", Some(expected_version)) => {
        panic!(
            "Unexpected failure for ID: {}. Expected outcome: pass, version: {:?}. Error: {:?}",
            id, expected_version, err
        );
    }
    // Catch-all for any unexpected outcome
    _ => panic!(
        "Unexpected outcome for ID: {}. Expected outcome: {}, version: {:?}, but got result: {:?}",
        id, expected_outcome, expected_version, result
    ),
}
}
#[test]
fn test_parse_id() {
    let test_cases = vec![
        ("chr1:100-200_+", "pass", "", "chr1", vec![(100, 200, '+')], Some(IDVersion::V2), "chr1:100-200_+"),
        ("hg38:chr1:100-200_+", "pass", "hg38", "chr1", vec![(100, 200, '+')], Some(IDVersion::V2), "hg38:chr1:100-200_+"),
        ("hg38:chr1:100-200_-", "pass", "hg38", "chr1", vec![(100, 200, '-')], Some(IDVersion::V2), "hg38:chr1:100-200_-"),
        ("hg38:chr1:100-200_+:10-50_-:1-5_+", "pass", "hg38", "chr1", vec![(100, 200, '+'), (10, 50, '-'), (1, 5, '+')], Some(IDVersion::V2), "hg38:chr1:145-149_-"),
        ("hg38:chr1:200-100_-", "fail", "", "", vec![], None, ""),
        ("hg_38:chr+1:10-40_+", "pass", "hg_38", "chr+1", vec![(10, 40, '+')], Some(IDVersion::V2), "hg_38:chr+1:10-40_+"),
        // Add remaining test cases here in the same format
    ];

    for (id, outcome, assembly, seq_id, ranges, version, normalization) in test_cases {
        run_parse_id_test(id, outcome, assembly, seq_id, ranges, version, normalization);
    }
}


