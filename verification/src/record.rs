//! What is recorded of one audio file, and how a decoded stream becomes
//! such a record.

use vstd::prelude::*;
use crate::fingerprint::{
    levels,
    peak_bits_of,
    rms_bits_of,
    supported_depth,
    finite_bits,
    Metrics,
};
use crate::text::chars_of;

verus! {

/// The record of one audio file.
///
/// The two levels are held as bit patterns, that of an IEEE 754 single
/// for the peak and that of a double for the RMS level in decibels: two
/// records have the same level exactly when the patterns are the same.
#[derive(Debug, PartialEq, Eq)]
pub struct AudioFile {
    pub file_path: String,
    pub file_name: String,
    pub total_samples: u64,
    pub sample_rate: u32,
    pub bit_depth: u32,
    pub channels: u32,
    /// The largest magnitude over the full scale, as the bits of a single.
    pub peak_level: u32,
    /// The RMS level in decibels, as the bits of a double.
    pub rms_db_level: u64,
    pub crc32: String,
    /// The size of the file in bytes.
    pub file_size: u64,
    /// When the file was last modified, in seconds since the epoch.
    pub modified_secs: u64,
}

/// An `AudioFile` as a mathematical value.
pub struct AudioRecord {
    pub file_path: Seq<char>,
    pub file_name: Seq<char>,
    pub total_samples: u64,
    pub sample_rate: u32,
    pub bit_depth: u32,
    pub channels: u32,
    pub peak_level: u32,
    pub rms_db_level: u64,
    pub crc32: Seq<char>,
    pub file_size: u64,
    pub modified_secs: u64,
}

impl View for AudioFile {
    type V = AudioRecord;

    open spec fn view(&self) -> AudioRecord {
        AudioRecord {
            file_path: self.file_path@,
            file_name: self.file_name@,
            total_samples: self.total_samples,
            sample_rate: self.sample_rate,
            bit_depth: self.bit_depth,
            channels: self.channels,
            peak_level: self.peak_level,
            rms_db_level: self.rms_db_level,
            crc32: self.crc32@,
            file_size: self.file_size,
            modified_secs: self.modified_secs,
        }
    }
}

impl AudioRecord {
    /// The record that holds nothing: empty texts, zeros, and the levels
    /// of 0.0.
    pub open spec fn empty() -> AudioRecord {
        AudioRecord {
            file_path: Seq::empty(),
            file_name: Seq::empty(),
            total_samples: 0,
            sample_rate: 0,
            bit_depth: 0,
            channels: 0,
            peak_level: 0,
            rms_db_level: 0,
            crc32: Seq::empty(),
            file_size: 0,
            modified_secs: 0,
        }
    }

    /// The RMS level of the record is a finite number.
    pub open spec fn well_formed(self) -> bool {
        finite_bits(self.rms_db_level)
    }
}

impl Default for AudioFile {
    fn default() -> (r: AudioFile)
        ensures
            r@ == AudioRecord::empty(),
    {
        AudioFile {
            file_path: String::new(),
            file_name: String::new(),
            total_samples: 0,
            sample_rate: 0,
            bit_depth: 0,
            channels: 0,
            peak_level: 0,
            rms_db_level: 0,
            crc32: String::new(),
            file_size: 0,
            modified_secs: 0,
        }
    }
}

impl Clone for AudioFile {
    fn clone(&self) -> (r: AudioFile)
        ensures
            r@ == self@,
    {
        AudioFile {
            file_path: self.file_path.clone(),
            file_name: self.file_name.clone(),
            total_samples: self.total_samples,
            sample_rate: self.sample_rate,
            bit_depth: self.bit_depth,
            channels: self.channels,
            peak_level: self.peak_level,
            rms_db_level: self.rms_db_level,
            crc32: self.crc32.clone(),
            file_size: self.file_size,
            modified_secs: self.modified_secs,
        }
    }
}

/// The container formats that can be decoded.
#[derive(Clone, Copy, Debug, PartialEq, Eq, Structural)]
pub enum Container {
    Flac,
    Wav,
}

/// What the header of a decoded stream says.
#[derive(Clone, Copy, Debug, PartialEq, Eq, Structural)]
pub struct StreamInfo {
    pub sample_rate: u32,
    pub bits_per_sample: u32,
    pub channels: u32,
    /// The number of samples, where the header gives it.
    pub total_samples: Option<u64>,
}

/// The width at which the samples of a WAV stream are read.
#[derive(Clone, Copy, Debug, PartialEq, Eq, Structural)]
pub enum SampleWidth {
    /// One byte for a sample.
    Bits8,
    /// Two bytes for a sample.
    Bits16,
    /// Up to four bytes for a sample.
    Bits32,
}

/// Why a file could not be opened as a stream.
#[derive(Clone, Copy, Debug, PartialEq, Eq, Structural)]
pub enum OpenFailure {
    /// The file could not be read.
    Io,
    /// The file was read and is no stream of its container format.
    Decoder,
}

/// Why a file has no record.
#[derive(Clone, Copy, Debug, PartialEq, Eq, Structural)]
pub enum ProcessError {
    /// A FLAC file could not be read.
    IoError,
    /// A FLAC file was read and is no FLAC stream.
    FlacError,
    /// A WAV file could not be opened as a WAV stream.
    NonFlacError,
    /// The stream holds no sample that could be decoded, or does not say
    /// how many it holds.
    NoSamplesFound,
    /// The bit depth is none of 8, 16, 24 and 32, or the file is of no
    /// container that can be decoded.
    UnsupportedBitDepth,
}

impl ProcessError {
    /// The error in words.
    pub open spec fn text(self) -> Seq<char> {
        match self {
            ProcessError::IoError => "IO error"@,
            ProcessError::FlacError => "FLAC error"@,
            ProcessError::NonFlacError => "Unsupported non-FLAC file found"@,
            ProcessError::NoSamplesFound => "No samples found"@,
            ProcessError::UnsupportedBitDepth => "Unsupported bit depth"@,
        }
    }

    /// The error in words.
    pub fn message(&self) -> (r: String)
        ensures
            r@ == self.text(),
    {
        match self {
            ProcessError::IoError => "IO error".to_owned(),
            ProcessError::FlacError => "FLAC error".to_owned(),
            ProcessError::NonFlacError => "Unsupported non-FLAC file found".to_owned(),
            ProcessError::NoSamplesFound => "No samples found".to_owned(),
            ProcessError::UnsupportedBitDepth => "Unsupported bit depth".to_owned(),
        }
    }
}

/// The container that a file-name extension stands for: `flac` and `wav`,
/// in lower case.
pub open spec fn container_for(extension: Seq<char>) -> Option<Container> {
    if extension == seq!['f', 'l', 'a', 'c'] {
        Some(Container::Flac)
    } else if extension == seq!['w', 'a', 'v'] {
        Some(Container::Wav)
    } else {
        None
    }
}

/// The error that a failure to open a file of the given container is
/// recorded as. A WAV file that cannot be opened counts as unsupported,
/// whatever the cause.
pub open spec fn open_error(container: Container, failure: OpenFailure) -> ProcessError {
    match container {
        Container::Wav => ProcessError::NonFlacError,
        Container::Flac => match failure {
            OpenFailure::Io => ProcessError::IoError,
            OpenFailure::Decoder => ProcessError::FlacError,
        },
    }
}

/// What stands in the way of fingerprinting a stream with this header,
/// if anything: the header must say how many samples the stream holds,
/// there must be at least one, and the bit depth must be one of 8, 16,
/// 24 and 32.
pub open spec fn stream_error(info: StreamInfo) -> Option<ProcessError> {
    if sample_count(info) == 0 {
        Some(ProcessError::NoSamplesFound)
    } else if !supported_depth(info.bits_per_sample as int) {
        Some(ProcessError::UnsupportedBitDepth)
    } else {
        None
    }
}

/// The width at which samples of the given bit depth are read: their
/// own for 8 and 16 bits, four bytes for 24 and 32 bits, none for a bit
/// depth that is not supported.
pub open spec fn width_for(bits_per_sample: u32) -> Option<SampleWidth> {
    if bits_per_sample == 8 {
        Some(SampleWidth::Bits8)
    } else if bits_per_sample == 16 {
        Some(SampleWidth::Bits16)
    } else if bits_per_sample == 24 || bits_per_sample == 32 {
        Some(SampleWidth::Bits32)
    } else {
        None
    }
}

/// The number of samples that the header gives; 0 where it gives none.
pub open spec fn sample_count(info: StreamInfo) -> u64 {
    match info.total_samples {
        Some(n) => n,
        None => 0,
    }
}

/// The outcome of processing one file: its record, or the reason why it
/// has none. A file that cannot be opened, a header that stands in the
/// way, and a stream of which no sample was decoded each give an error.
pub open spec fn processed(
    path: Seq<char>,
    extension: Seq<char>,
    opened: Result<StreamInfo, OpenFailure>,
    metrics: Metrics,
    ratio_bits: u32,
    decibel_bits: u64,
) -> Result<AudioRecord, ProcessError> {
    match container_for(extension) {
        None => Err(ProcessError::UnsupportedBitDepth),
        Some(container) => match opened {
            Err(failure) => Err(open_error(container, failure)),
            Ok(info) => match stream_error(info) {
                Some(e) => Err(e),
                None => if metrics.count == 0 {
                    Err(ProcessError::NoSamplesFound)
                } else {
                    Ok(
                        AudioRecord {
                            file_path: path,
                            total_samples: sample_count(info),
                            sample_rate: info.sample_rate,
                            bit_depth: info.bits_per_sample,
                            channels: info.channels,
                            peak_level: peak_bits_of(
                                metrics,
                                info.bits_per_sample as int,
                                ratio_bits,
                            ),
                            rms_db_level: rms_bits_of(
                                metrics,
                                info.bits_per_sample as int,
                                decibel_bits,
                            ),
                            ..AudioRecord::empty()
                        },
                    )
                },
            },
        },
    }
}

/// The container that a file-name extension stands for.
pub fn container_of(extension: &str) -> (r: Option<Container>)
    ensures
        r == container_for(extension@),
{
    let e: Vec<char> = chars_of(extension);
    if e.len() == 4 && e[0] == 'f' && e[1] == 'l' && e[2] == 'a' && e[3] == 'c' {
        assert(e@ =~= seq!['f', 'l', 'a', 'c']);
        Some(Container::Flac)
    } else if e.len() == 3 && e[0] == 'w' && e[1] == 'a' && e[2] == 'v' {
        assert(e@ =~= seq!['w', 'a', 'v']);
        Some(Container::Wav)
    } else {
        assert(seq!['f', 'l', 'a', 'c'].len() == 4);
        assert(seq!['w', 'a', 'v'].len() == 3);
        assert(seq!['f', 'l', 'a', 'c'][0] == 'f' && seq!['f', 'l', 'a', 'c'][1] == 'l' && seq![
            'f',
            'l',
            'a',
            'c',
        ][2] == 'a' && seq!['f', 'l', 'a', 'c'][3] == 'c');
        assert(seq!['w', 'a', 'v'][0] == 'w' && seq!['w', 'a', 'v'][1] == 'a' && seq![
            'w',
            'a',
            'v',
        ][2] == 'v');
        None
    }
}

/// The width at which samples of the given bit depth are read.
pub fn sample_width(bits_per_sample: u32) -> (r: Option<SampleWidth>)
    ensures
        r == width_for(bits_per_sample),
        r.is_some() <==> supported_depth(bits_per_sample as int),
{
    if bits_per_sample == 8 {
        Some(SampleWidth::Bits8)
    } else if bits_per_sample == 16 {
        Some(SampleWidth::Bits16)
    } else if bits_per_sample == 24 || bits_per_sample == 32 {
        Some(SampleWidth::Bits32)
    } else {
        None
    }
}

/// Judges the header of a stream before its samples are read.
pub fn check_stream(info: &StreamInfo) -> (r: Result<(), ProcessError>)
    ensures
        r is Ok <==> stream_error(*info).is_none(),
        r matches Err(e) ==> stream_error(*info) == Some(e),
{
    let depth: u32 = info.bits_per_sample;
    let total: u64 = match info.total_samples {
        Some(n) => n,
        None => 0,
    };
    if total == 0 {
        Err(ProcessError::NoSamplesFound)
    } else if !(depth == 8 || depth == 16 || depth == 24 || depth == 32) {
        Err(ProcessError::UnsupportedBitDepth)
    } else {
        Ok(())
    }
}

/// The record or the error as a mathematical value.
pub open spec fn outcome_view(r: Result<AudioFile, ProcessError>) -> Result<
    AudioRecord,
    ProcessError,
> {
    match r {
        Ok(a) => Ok(a@),
        Err(e) => Err(e),
    }
}

impl AudioFile {
    /// Makes the record of one file from what decoding it gave.
    ///
    /// `opened` is the header of the stream, or the reason why there is
    /// none; `metrics` are those of its samples, and `ratio_bits` and
    /// `decibel_bits` the two levels computed from them in floating point.
    pub fn process_audio_file(
        path: &str,
        extension: &str,
        opened: Result<StreamInfo, OpenFailure>,
        metrics: &Metrics,
        ratio_bits: u32,
        decibel_bits: u64,
    ) -> (r: Result<AudioFile, ProcessError>)
        ensures
            outcome_view(r) == processed(
                path@,
                extension@,
                opened,
                *metrics,
                ratio_bits,
                decibel_bits,
            ),
            r matches Ok(a) ==> a@.well_formed() && a@.total_samples > 0 && metrics.count > 0,
    {
        let container: Container = match container_of(extension) {
            Some(c) => c,
            None => { return Err(ProcessError::UnsupportedBitDepth); },
        };
        let info: StreamInfo = match opened {
            Ok(info) => info,
            Err(failure) => {
                return Err(
                    match container {
                        Container::Wav => ProcessError::NonFlacError,
                        Container::Flac => match failure {
                            OpenFailure::Io => ProcessError::IoError,
                            OpenFailure::Decoder => ProcessError::FlacError,
                        },
                    },
                );
            },
        };
        match check_stream(&info) {
            Err(e) => { return Err(e); },
            Ok(_) => {},
        }
        if metrics.count == 0 {
            return Err(ProcessError::NoSamplesFound);
        }
        let total: u64 = match info.total_samples {
            Some(n) => n,
            None => 0,
        };
        let (peak, rms) = levels(metrics, info.bits_per_sample as i32, ratio_bits, decibel_bits);
        let mut audio_file = AudioFile::default();
        audio_file.file_path = path.to_owned();
        audio_file.total_samples = total;
        audio_file.sample_rate = info.sample_rate;
        audio_file.bit_depth = info.bits_per_sample;
        audio_file.channels = info.channels;
        audio_file.peak_level = peak;
        audio_file.rms_db_level = rms;
        Ok(audio_file)
    }
}

} // verus!
