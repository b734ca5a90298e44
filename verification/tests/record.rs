use fadupes::fingerprint::{accumulate_metrics, SENTINEL_DB_BITS};
use fadupes::record::{
    check_stream, container_of, sample_width, AudioFile, Container, OpenFailure, ProcessError,
    SampleWidth, StreamInfo,
};

fn info(bits: u32, total: Option<u64>) -> StreamInfo {
    StreamInfo { sample_rate: 44100, bits_per_sample: bits, channels: 1, total_samples: total }
}

#[test]
fn default_record_is_empty() {
    let a = AudioFile::default();
    assert_eq!(a.file_path, "");
    assert_eq!(a.file_name, "");
    assert_eq!(a.crc32, "");
    assert_eq!(a.total_samples, 0);
    assert_eq!(a.sample_rate, 0);
    assert_eq!(a.bit_depth, 0);
    assert_eq!(a.channels, 0);
    assert_eq!(a.peak_level, 0.0f32.to_bits());
    assert_eq!(a.rms_db_level, 0.0f64.to_bits());
    assert_eq!(a.file_size, 0);
    assert_eq!(a.modified_secs, 0);
}

#[test]
fn clone_keeps_every_field() {
    let mut a = AudioFile::default();
    a.file_path = "a/b.flac".to_string();
    a.file_name = "b.flac".to_string();
    a.crc32 = "00".to_string();
    a.total_samples = 9;
    a.peak_level = 7;
    a.rms_db_level = 11;
    a.file_size = 3;
    a.modified_secs = 4;
    assert_eq!(a.clone(), a);
}

#[test]
fn extensions_name_their_containers() {
    assert_eq!(container_of("flac"), Some(Container::Flac));
    assert_eq!(container_of("wav"), Some(Container::Wav));
    assert_eq!(container_of("FLAC"), None);
    assert_eq!(container_of("Wav"), None);
    assert_eq!(container_of("mp3"), None);
    assert_eq!(container_of(""), None);
    assert_eq!(container_of("flacx"), None);
    assert_eq!(container_of("wa"), None);
}

#[test]
fn headers_are_judged() {
    assert_eq!(check_stream(&info(16, Some(10))), Ok(()));
    assert_eq!(check_stream(&info(8, Some(1))), Ok(()));
    assert_eq!(check_stream(&info(24, Some(1))), Ok(()));
    assert_eq!(check_stream(&info(32, Some(u64::MAX))), Ok(()));
    assert_eq!(check_stream(&info(16, None)), Err(ProcessError::NoSamplesFound));
    assert_eq!(check_stream(&info(16, Some(0))), Err(ProcessError::NoSamplesFound));
    assert_eq!(check_stream(&info(20, None)), Err(ProcessError::NoSamplesFound));
    assert_eq!(check_stream(&info(20, Some(0))), Err(ProcessError::NoSamplesFound));
    assert_eq!(check_stream(&info(20, Some(10))), Err(ProcessError::UnsupportedBitDepth));
    assert_eq!(check_stream(&info(12, Some(1))), Err(ProcessError::UnsupportedBitDepth));
    assert_eq!(check_stream(&info(0, Some(1))), Err(ProcessError::UnsupportedBitDepth));
}

#[test]
fn a_stream_without_samples_has_no_record() {
    let empty = accumulate_metrics(&Vec::new());
    let some = accumulate_metrics(&vec![1, 2]);
    let ratio = 0.5f32.to_bits();
    let decibels = (-6.0f64).to_bits();
    for ext in ["wav", "flac"] {
        assert_eq!(
            AudioFile::process_audio_file("p", ext, Ok(info(16, Some(0))), &empty, ratio, decibels),
            Err(ProcessError::NoSamplesFound)
        );
        assert_eq!(
            AudioFile::process_audio_file("p", ext, Ok(info(16, Some(0))), &some, ratio, decibels),
            Err(ProcessError::NoSamplesFound)
        );
        assert_eq!(
            AudioFile::process_audio_file("p", ext, Ok(info(16, Some(2))), &empty, ratio, decibels),
            Err(ProcessError::NoSamplesFound)
        );
        assert_eq!(
            AudioFile::process_audio_file("p", ext, Ok(info(16, None)), &some, ratio, decibels),
            Err(ProcessError::NoSamplesFound)
        );
        let kept =
            AudioFile::process_audio_file("p", ext, Ok(info(16, Some(2))), &some, ratio, decibels)
                .unwrap();
        assert_eq!(kept.total_samples, 2);
    }
}

#[test]
fn a_decoded_stream_becomes_a_record() {
    let samples = vec![16384, -16384];
    let m = accumulate_metrics(&samples);
    let ratio = (m.max_abs as f32 / 32767.0).to_bits();
    let decibels = (-6.02f64).to_bits();
    let a = AudioFile::process_audio_file(
        "music/a.wav",
        "wav",
        Ok(info(16, Some(2))),
        &m,
        ratio,
        decibels,
    )
    .unwrap();
    assert_eq!(a.file_path, "music/a.wav");
    assert_eq!(a.file_name, "");
    assert_eq!(a.total_samples, 2);
    assert_eq!(a.sample_rate, 44100);
    assert_eq!(a.bit_depth, 16);
    assert_eq!(a.channels, 1);
    assert_eq!(a.peak_level, ratio);
    assert_eq!(a.rms_db_level, decibels);
    assert_eq!(a.file_size, 0);
    assert_eq!(a.modified_secs, 0);
}

#[test]
fn a_silent_stream_gets_the_sentinel() {
    let m = accumulate_metrics(&vec![0, 0, 0]);
    let a = AudioFile::process_audio_file(
        "s.flac",
        "flac",
        Ok(info(24, Some(3))),
        &m,
        f32::NAN.to_bits(),
        f64::NEG_INFINITY.to_bits(),
    )
    .unwrap();
    assert_eq!(a.peak_level, 0);
    assert_eq!(a.rms_db_level, SENTINEL_DB_BITS);
    assert!(f64::from_bits(a.rms_db_level).is_finite());
}

#[test]
fn each_error_has_its_input() {
    let m = accumulate_metrics(&vec![1]);
    let run = |ext: &str, opened: Result<StreamInfo, OpenFailure>| {
        AudioFile::process_audio_file("p", ext, opened, &m, 1, 1)
    };
    assert_eq!(run("mp3", Ok(info(16, Some(1)))), Err(ProcessError::UnsupportedBitDepth));
    assert_eq!(run("flac", Err(OpenFailure::Io)), Err(ProcessError::IoError));
    assert_eq!(run("flac", Err(OpenFailure::Decoder)), Err(ProcessError::FlacError));
    assert_eq!(run("wav", Err(OpenFailure::Io)), Err(ProcessError::NonFlacError));
    assert_eq!(run("wav", Err(OpenFailure::Decoder)), Err(ProcessError::NonFlacError));
    assert_eq!(run("flac", Ok(info(16, None))), Err(ProcessError::NoSamplesFound));
    assert_eq!(run("wav", Ok(info(16, None))), Err(ProcessError::NoSamplesFound));
    assert_eq!(run("wav", Ok(info(16, Some(0)))), Err(ProcessError::NoSamplesFound));
    assert_eq!(run("wav", Ok(info(12, Some(1)))), Err(ProcessError::UnsupportedBitDepth));
    assert_eq!(run("flac", Ok(info(20, Some(1)))), Err(ProcessError::UnsupportedBitDepth));
    assert!(run("wav", Ok(info(16, Some(1)))).is_ok());
}

#[test]
fn errors_have_words() {
    assert_eq!(ProcessError::IoError.message(), "IO error");
    assert_eq!(ProcessError::FlacError.message(), "FLAC error");
    assert_eq!(ProcessError::NonFlacError.message(), "Unsupported non-FLAC file found");
    assert_eq!(ProcessError::NoSamplesFound.message(), "No samples found");
    assert_eq!(ProcessError::UnsupportedBitDepth.message(), "Unsupported bit depth");
}

#[test]
fn samples_are_read_at_the_width_of_their_bit_depth() {
    assert_eq!(sample_width(8), Some(SampleWidth::Bits8));
    assert_eq!(sample_width(16), Some(SampleWidth::Bits16));
    assert_eq!(sample_width(24), Some(SampleWidth::Bits32));
    assert_eq!(sample_width(32), Some(SampleWidth::Bits32));
    assert_eq!(sample_width(0), None);
    assert_eq!(sample_width(12), None);
    assert_eq!(sample_width(64), None);
}
