use sdr_acars::msk::{FLEN, FLEN_OVERSAMPLED, IF_RATE_HZ, MFLT_OVER};

#[test]
fn flen_constants_match_c_integer_division() {
    assert_eq!(FLEN, 11);
    assert_eq!(FLEN_OVERSAMPLED, 133);
}

#[test]
fn filter_length_follows_the_if_rate() {
    assert_eq!(FLEN, IF_RATE_HZ as usize / 1200 + 1);
    assert_eq!(FLEN_OVERSAMPLED, FLEN * MFLT_OVER + 1);
}
