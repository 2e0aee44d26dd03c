use pasta_srs::{caml_pasta_fp_urs_create, read_record, write_record, Scalar};

#[test]
fn a_record_has_the_depth_then_the_points() {
    let srs = caml_pasta_fp_urs_create(2).unwrap();
    let bytes = write_record(&srs);
    assert_eq!(bytes.len(), 8 + 3 * 65);
    assert_eq!(bytes[..8], 2u64.to_le_bytes());
    assert_eq!(bytes[8..16], srs.g[0].x[0].to_le_bytes());
    assert_eq!(bytes[8 + 24..8 + 32], srs.g[0].x[3].to_le_bytes());
    assert_eq!(bytes[8 + 32..8 + 40], srs.g[0].y[0].to_le_bytes());
    assert_eq!(bytes[8 + 64], 0);
    assert_eq!(bytes[8 + 65..8 + 65 + 8], srs.g[1].x[0].to_le_bytes());
    assert_eq!(bytes[8 + 130..8 + 130 + 8], srs.h.x[0].to_le_bytes());
}

#[test]
fn reading_a_written_record_gives_the_string_back() {
    for depth in [1isize, 4, 16] {
        let srs = caml_pasta_fp_urs_create(depth).unwrap();
        let bytes = write_record(&srs);
        let back = read_record(&bytes, Some(0)).unwrap();
        assert_eq!(back, srs);
        assert_eq!(read_record(&bytes, None).unwrap(), srs);
        let coeffs: Vec<Scalar> = (0..20u64).map(|j| Scalar::from_u64(j * j + 1)).collect();
        assert_eq!(
            back.commit_non_hiding(&coeffs, None),
            srs.commit_non_hiding(&coeffs, None)
        );
    }
}

#[test]
fn records_in_one_file_are_found_by_their_offsets() {
    let a = caml_pasta_fp_urs_create(1).unwrap();
    let b = caml_pasta_fp_urs_create(3).unwrap();
    let mut bytes = write_record(&a);
    let second = bytes.len();
    bytes.extend(write_record(&b));
    bytes.extend([0xffu8; 7]);
    assert_eq!(read_record(&bytes, None).unwrap(), a);
    assert_eq!(read_record(&bytes, Some(second as isize)).unwrap(), b);
    assert_eq!(read_record(&bytes, Some(1)), None);
    assert_eq!(read_record(&bytes, Some(second as isize + 8)), None);
}

#[test]
fn garbage_is_absent() {
    assert_eq!(read_record(&vec![], None), None);
    assert_eq!(read_record(&vec![0xab; 500], None), None);
    assert_eq!(read_record(&vec![0; 500], None), None);
    let mut bytes = 1u64.to_le_bytes().to_vec();
    bytes.extend([0x5au8; 130]);
    assert_eq!(read_record(&bytes, None), None);
}

#[test]
fn an_offset_outside_the_bytes_is_absent() {
    let srs = caml_pasta_fp_urs_create(2).unwrap();
    let bytes = write_record(&srs);
    assert_eq!(read_record(&bytes, Some(bytes.len() as isize)), None);
    assert_eq!(read_record(&bytes, Some(bytes.len() as isize + 1)), None);
    assert_eq!(read_record(&bytes, Some(isize::MAX)), None);
    assert_eq!(read_record(&bytes, Some(-1)), None);
}

#[test]
fn a_cut_or_changed_record_is_absent() {
    let srs = caml_pasta_fp_urs_create(2).unwrap();
    let bytes = write_record(&srs);
    assert_eq!(read_record(&bytes[..bytes.len() - 1].to_vec(), None), None);
    let mut depth_zero = bytes.clone();
    depth_zero[0] = 0;
    assert_eq!(read_record(&depth_zero, None), None);
    let mut deeper = bytes.clone();
    deeper[0] = 3;
    assert_eq!(read_record(&deeper, None), None);
    let mut huge = bytes.clone();
    huge[..8].copy_from_slice(&u64::MAX.to_le_bytes());
    assert_eq!(read_record(&huge, None), None);
    let mut off_curve = bytes.clone();
    off_curve[8] ^= 1;
    assert_eq!(read_record(&off_curve, None), None);
    let mut flag = bytes.clone();
    flag[8 + 64] = 2;
    assert_eq!(read_record(&flag, None), None);
    let mut infinite = bytes.clone();
    infinite[8 + 64] = 1;
    assert_eq!(read_record(&infinite, None), None);
    let mut last = bytes.clone();
    let at = last.len() - 2;
    last[at] ^= 0x80;
    assert_eq!(read_record(&last, None), None);
}

#[test]
fn the_point_at_infinity_is_read_in_its_one_form() {
    let mut srs = caml_pasta_fp_urs_create(1).unwrap();
    srs.h = pasta_srs::GroupElement::identity();
    let bytes = write_record(&srs);
    assert_eq!(bytes[bytes.len() - 1], 1);
    assert_eq!(read_record(&bytes, None).unwrap(), srs);
}
