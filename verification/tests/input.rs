use sdr_acars::input::{split_iq, wav_channels, WavChannels};

#[test]
fn whole_samples_are_cut_and_the_rest_is_carried() {
    let (s, rest) = split_iq(&[], &[0x01, 0x00, 0xFF, 0xFF, 0x00, 0x80]);
    assert_eq!(s, vec![(1, -1)]);
    assert_eq!(rest, vec![0x00, 0x80]);
    let (s, rest) = split_iq(&rest, &[0xFF, 0x7F]);
    assert_eq!(s, vec![(i16::MIN, i16::MAX)]);
    assert!(rest.is_empty());
}

#[test]
fn nothing_to_cut_from_a_short_read() {
    let (s, rest) = split_iq(&[1], &[2, 3]);
    assert!(s.is_empty());
    assert_eq!(rest, vec![1, 2, 3]);
}

#[test]
fn wav_channel_choice() {
    assert_eq!(wav_channels(2, Some(2), 6), WavChannels::Given);
    assert_eq!(wav_channels(2, Some(3), 6), WavChannels::CountMismatch);
    assert_eq!(wav_channels(4, None, 6), WavChannels::Defaults(4));
    assert_eq!(wav_channels(7, None, 6), WavChannels::TooManyForDefaults);
}
