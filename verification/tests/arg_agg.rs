use arg_agg::bitmap::{first_set_bit, first_unset_bit, get_leading_ones, get_leading_zeroes, Bitmap};
use arg_agg::boolean::{arg_max_bool, arg_min_bool, BoolChunk, BooleanSeq};
use arg_agg::numeric::{arg_max_numeric, arg_min_numeric, NumericSeq};
use arg_agg::sortedness::Sortedness;
use arg_agg::text::{arg_max_str, arg_min_str, TextSeq};
use arg_agg::{ArgAgg, Sequence};

/// Packs `bits` into a bitmap whose first logical bit sits at `offset`.
fn bm(bits: &[bool], offset: usize) -> Bitmap {
    let mut bytes = vec![0u8; (offset + bits.len() + 7) / 8];
    for (i, &b) in bits.iter().enumerate() {
        if b {
            bytes[(offset + i) / 8] |= 1u8 << ((offset + i) % 8);
        }
    }
    Bitmap {
        bytes,
        offset,
        len: bits.len(),
    }
}

fn bool_seq(chunks: &[&[Option<bool>]]) -> BooleanSeq {
    let chunks = chunks
        .iter()
        .map(|vals| {
            let bits: Vec<bool> = vals.iter().map(|v| v.unwrap_or(false)).collect();
            let valid: Vec<bool> = vals.iter().map(|v| v.is_some()).collect();
            let validity = if valid.iter().all(|&v| v) {
                None
            } else {
                Some(bm(&valid, 0))
            };
            BoolChunk {
                values: bm(&bits, 0),
                validity,
            }
        })
        .collect();
    BooleanSeq {
        chunks,
        sorted: Sortedness::Unknown,
    }
}

fn num_seq(chunks: &[&[i64]], sorted: Sortedness) -> NumericSeq {
    NumericSeq {
        chunks: chunks.iter().map(|c| c.to_vec()).collect(),
        null_count: 0,
        sorted,
    }
}

fn text_seq(vals: &[Option<&str>], sorted: Sortedness) -> TextSeq {
    TextSeq {
        vals: vals
            .iter()
            .map(|v| v.map(|s| s.as_bytes().to_vec()))
            .collect(),
        sorted,
    }
}

#[test]
fn empty_numeric_has_no_result() {
    let s = Sequence::Numeric(num_seq(&[], Sortedness::Unknown));
    assert_eq!(s.arg_min(), None);
    assert_eq!(s.arg_max(), None);
    // a flag on an empty sequence is short-circuited before it is consulted
    let s = Sequence::Numeric(num_seq(&[], Sortedness::Ascending));
    assert_eq!(s.arg_min(), None);
    assert_eq!(s.arg_max(), None);
}

#[test]
fn empty_boolean_has_no_result() {
    let s = Sequence::Boolean(bool_seq(&[]));
    assert_eq!(s.arg_min(), None);
    assert_eq!(s.arg_max(), None);
}

#[test]
fn empty_text_has_no_result() {
    let s = Sequence::Text(text_seq(&[], Sortedness::Descending));
    assert_eq!(s.arg_min(), None);
    assert_eq!(s.arg_max(), None);
}

#[test]
fn unsupported_kind_has_no_result() {
    assert_eq!(Sequence::Other.arg_min(), None);
    assert_eq!(Sequence::Other.arg_max(), None);
}

#[test]
fn ascending_flag_is_trusted_blindly() {
    // content not actually sorted: the flag wins without a scan
    let s = Sequence::Numeric(num_seq(&[&[3, 1, 2]], Sortedness::Ascending));
    assert_eq!(s.arg_min(), Some(0));
    assert_eq!(s.arg_max(), Some(2));
    let s = Sequence::Text(text_seq(&[Some("c"), Some("a")], Sortedness::Ascending));
    assert_eq!(s.arg_min(), Some(0));
    assert_eq!(s.arg_max(), Some(1));
}

#[test]
fn descending_flag_is_trusted_blindly() {
    let s = Sequence::Numeric(num_seq(&[&[3, 1], &[2]], Sortedness::Descending));
    assert_eq!(s.arg_min(), Some(2));
    assert_eq!(s.arg_max(), Some(0));
    let s = Sequence::Text(text_seq(&[Some("a"), Some("c")], Sortedness::Descending));
    assert_eq!(s.arg_min(), Some(1));
    assert_eq!(s.arg_max(), Some(0));
}

#[test]
fn boolean_reducer_ignores_the_flag() {
    let mut ca = bool_seq(&[&[Some(true), Some(false)]]);
    ca.sorted = Sortedness::Ascending;
    let s = Sequence::Boolean(ca);
    // a scan, not the flag shortcut: the first false wins argmin
    assert_eq!(s.arg_min(), Some(1));
    assert_eq!(s.arg_max(), Some(0));
}

#[test]
fn chunk_local_index_translates_to_global() {
    // chunk lengths [3, 4, 2], global minimum at local index 1 of chunk 1
    let s = Sequence::Numeric(num_seq(
        &[&[9, 8, 7], &[6, 0, 6, 6], &[5, 4]],
        Sortedness::Unknown,
    ));
    assert_eq!(s.arg_min(), Some(4));
    assert_eq!(s.arg_max(), Some(0));
}

#[test]
fn ties_resolve_to_first_occurrence() {
    let s = Sequence::Numeric(num_seq(&[&[5, 1, 1, 5]], Sortedness::Unknown));
    assert_eq!(s.arg_min(), Some(1));
    assert_eq!(s.arg_max(), Some(0));
}

#[test]
fn ties_resolve_to_first_occurrence_across_chunks() {
    let s = Sequence::Numeric(num_seq(&[&[5, 1], &[1, 5]], Sortedness::Unknown));
    assert_eq!(s.arg_min(), Some(1));
    assert_eq!(s.arg_max(), Some(0));
}

#[test]
fn all_null_booleans_answer_zero() {
    let s = Sequence::Boolean(bool_seq(&[&[None, None, None]]));
    assert_eq!(s.arg_min(), Some(0));
    assert_eq!(s.arg_max(), Some(0));
}

#[test]
fn all_true_booleans_answer_zero_for_argmin() {
    let s = Sequence::Boolean(bool_seq(&[&[Some(true), Some(true)]]));
    assert_eq!(s.arg_min(), Some(0));
    assert_eq!(s.arg_max(), Some(0));
}

#[test]
fn boolean_null_orders_below_true() {
    let s = Sequence::Boolean(bool_seq(&[&[Some(false), None, Some(true)]]));
    assert_eq!(s.arg_max(), Some(2));
    assert_eq!(s.arg_min(), Some(0));
}

#[test]
fn boolean_null_ties_with_false_first_wins() {
    let s = Sequence::Boolean(bool_seq(&[&[Some(true), None, Some(false)]]));
    assert_eq!(s.arg_min(), Some(1));
}

#[test]
fn boolean_no_true_with_nulls_has_no_argmax() {
    // the linear path finds no true and reports no result
    let s = Sequence::Boolean(bool_seq(&[&[Some(false), None]]));
    assert_eq!(s.arg_max(), None);
    assert_eq!(s.arg_min(), Some(0));
}

#[test]
fn boolean_single_chunk_all_false_answers_zero_for_argmax() {
    // the bitmap path's degenerate convention, unlike the linear path above
    let s = Sequence::Boolean(bool_seq(&[&[Some(false), Some(false)]]));
    assert_eq!(s.arg_max(), Some(0));
    assert_eq!(s.arg_min(), Some(0));
}

#[test]
fn boolean_multi_chunk_takes_the_linear_path() {
    let s = Sequence::Boolean(bool_seq(&[
        &[Some(false), Some(false)],
        &[Some(false), Some(true)],
    ]));
    assert_eq!(s.arg_max(), Some(3));
    assert_eq!(s.arg_min(), Some(0));
}

#[test]
fn bitmap_path_matches_naive_scan_at_every_length_and_offset() {
    for offset in 0..8usize {
        for len in [
            1usize, 2, 5, 7, 8, 9, 15, 16, 17, 31, 63, 64, 65, 66, 127, 128, 129, 150,
        ] {
            let bits: Vec<bool> = (0..len).map(|i| (i * 7 + 3) % 13 == 0).collect();
            for value in [true, false] {
                let pattern: Vec<bool> = bits.iter().map(|&b| b == value).collect();
                let mask = bm(&pattern, offset);
                let naive_set = pattern.iter().position(|&b| b).unwrap_or(0);
                let naive_unset = pattern.iter().position(|&b| !b).unwrap_or(0);
                assert_eq!(first_set_bit(&mask), naive_set, "len {len} offset {offset}");
                assert_eq!(
                    first_unset_bit(&mask),
                    naive_unset,
                    "len {len} offset {offset}"
                );
                let opts: Vec<Option<bool>> = pattern.iter().map(|&b| Some(b)).collect();
                let ca = bool_seq(&[&opts]);
                assert_eq!(
                    arg_max_bool(&ca),
                    if pattern.iter().any(|&b| b) {
                        Some(naive_set)
                    } else {
                        Some(0)
                    }
                );
                let expected_min = if pattern.iter().all(|&b| b) {
                    Some(0)
                } else {
                    Some(naive_unset)
                };
                assert_eq!(arg_min_bool(&ca), expected_min);
            }
        }
    }
}

#[test]
fn leading_zero_and_one_counts() {
    assert_eq!(get_leading_zeroes(0), 64);
    assert_eq!(get_leading_zeroes(0b1000), 3);
    assert_eq!(get_leading_zeroes(1), 0);
    assert_eq!(get_leading_ones(u64::MAX), 64);
    assert_eq!(get_leading_ones(0b0111), 3);
    assert_eq!(get_leading_ones(0), 0);
}

#[test]
fn text_null_is_smallest() {
    let s = Sequence::Text(text_seq(&[None, Some("b"), Some("a")], Sortedness::Unknown));
    assert_eq!(s.arg_min(), Some(0));
    assert_eq!(s.arg_max(), Some(1));
}

#[test]
fn text_all_null_answers_zero() {
    let ca = text_seq(&[None, None], Sortedness::Unknown);
    assert_eq!(arg_min_str(&ca), Some(0));
    assert_eq!(arg_max_str(&ca), Some(0));
}

#[test]
fn text_ties_resolve_to_first_occurrence() {
    let ca = text_seq(
        &[Some("b"), Some("a"), Some("a"), Some("b")],
        Sortedness::Unknown,
    );
    assert_eq!(arg_min_str(&ca), Some(1));
    assert_eq!(arg_max_str(&ca), Some(0));
}

#[test]
fn text_prefix_orders_before_extension() {
    let ca = text_seq(&[Some("ab"), Some("a"), Some("abc")], Sortedness::Unknown);
    assert_eq!(arg_min_str(&ca), Some(1));
    assert_eq!(arg_max_str(&ca), Some(2));
}

#[test]
fn chunking_does_not_change_the_answer() {
    let vals: Vec<i64> = vec![9, 3, 5, 3, 7, 1, 1, 8];
    let whole = Sequence::Numeric(num_seq(&[&vals], Sortedness::Unknown));
    let expect_min = whole.arg_min();
    let expect_max = whole.arg_max();
    assert_eq!(expect_min, Some(5));
    assert_eq!(expect_max, Some(0));
    let splits: &[&[&[i64]]] = &[
        &[&vals[..1], &vals[1..]],
        &[&vals[..4], &vals[4..]],
        &[&vals[..3], &[], &vals[3..6], &vals[6..]],
        &[&vals[..7], &vals[7..]],
    ];
    for split in splits {
        let s = Sequence::Numeric(num_seq(split, Sortedness::Unknown));
        assert_eq!(s.arg_min(), expect_min);
        assert_eq!(s.arg_max(), expect_max);
    }
}

#[test]
fn empty_chunks_alone_give_no_result() {
    let ca = num_seq(&[&[], &[]], Sortedness::Unknown);
    assert_eq!(arg_min_numeric(&ca), None);
    assert_eq!(arg_max_numeric(&ca), None);
}

#[test]
fn numeric_with_nulls_scans_raw_values() {
    // the fold never consults a validity bitmap: the raw value stored at a
    // null position takes part like any other
    let ca = NumericSeq {
        chunks: vec![vec![5, 1, 2]],
        null_count: 1,
        sorted: Sortedness::Unknown,
    };
    let s = Sequence::Numeric(ca);
    assert_eq!(s.arg_min(), Some(1));
    assert_eq!(s.arg_max(), Some(0));
}

#[test]
fn numeric_extremes_of_the_value_range() {
    let s = Sequence::Numeric(num_seq(
        &[&[0, i64::MIN], &[i64::MAX, 0]],
        Sortedness::Unknown,
    ));
    assert_eq!(s.arg_min(), Some(1));
    assert_eq!(s.arg_max(), Some(2));
}

#[test]
fn bitmap_bit_access_honours_the_offset() {
    let mask = bm(&[false, true, false, true, true], 5);
    assert!(!mask.bit(0));
    assert!(mask.bit(1));
    assert!(!mask.bit(2));
    assert!(mask.bit(3));
    assert!(mask.bit(4));
    assert_eq!(mask.unset_bits(), 2);
}
