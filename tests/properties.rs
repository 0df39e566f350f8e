use lzss::{
    Lzss, LzssDyn, LzssDynError, LzssError, Read, ResultLzssErrorVoidExt, SliceReader,
    SliceWriteError, SliceWriter, SliceWriterExact, UnwrapReadExt, UnwrapReadWriteExt,
    UnwrapWriteExt, VecWriter, Write,
};

const TEST_DATA: &[u8; 27] = b"Sample   Data   11221233123";
const COMPRESSED_DATA: [u8; 26] = [
    169, 216, 109, 183, 11, 101, 149, 246, 13, 18, 195, 116, 176, 191, 81, 152, 204, 102, 83, 32,
    0, 19, 57, 152, 3, 16,
];

fn sample_inputs() -> Vec<Vec<u8>> {
    let mut inputs = vec![
        Vec::new(),
        vec![0u8],
        vec![0x20u8; 5],
        vec![7u8; 3000],
        TEST_DATA.to_vec(),
        b"abcabcabcabcabcabcabcabcabcabcabcabcabcabcabcabc".to_vec(),
    ];
    let mut pseudo = Vec::new();
    let mut x: u32 = 12345;
    for _ in 0..2500 {
        x = x.wrapping_mul(1103515245).wrapping_add(12345);
        pseudo.push(b"abcd efgh"[((x >> 16) % 9) as usize]);
    }
    inputs.push(pseudo);
    inputs
}

fn compress_vec(p: &LzssDyn, data: &[u8]) -> Vec<u8> {
    p.compress(SliceReader::new(data), VecWriter::with_capacity(data.len()))
        .unwrap_read_write()
}

fn decompress_vec(p: &LzssDyn, data: &[u8]) -> Vec<u8> {
    p.decompress(SliceReader::new(data), VecWriter::with_capacity(data.len()))
        .unwrap_read_write()
}

#[test]
fn round_trip_over_parameter_sets() {
    for (ei, ej) in [(10, 4), (5, 3), (6, 2), (8, 4), (11, 5), (12, 4), (13, 5), (9, 8)] {
        let p = LzssDyn::new(ei, ej, 0x20).unwrap();
        for input in sample_inputs() {
            let c = compress_vec(&p, &input);
            assert_eq!(decompress_vec(&p, &c), input, "ei={ei} ej={ej}");
        }
    }
}

#[test]
fn round_trip_other_fill_byte() {
    let p = LzssDyn::new(10, 4, 0x00).unwrap();
    for input in sample_inputs() {
        let c = compress_vec(&p, &input);
        assert_eq!(decompress_vec(&p, &c), input);
    }
}

#[test]
fn compressing_twice_gives_equal_bytes() {
    let p = LzssDyn::new(10, 4, 0x20).unwrap();
    for input in sample_inputs() {
        assert_eq!(compress_vec(&p, &input), compress_vec(&p, &input));
    }
}

#[test]
fn empty_input_gives_empty_output() {
    let p = LzssDyn::new(10, 4, 0x20).unwrap();
    assert_eq!(compress_vec(&p, &[]), Vec::<u8>::new());
    assert_eq!(decompress_vec(&p, &[]), Vec::<u8>::new());
}

#[test]
fn golden_vector_both_ways() {
    let p = LzssDyn::new(10, 4, 0x20).unwrap();
    assert_eq!(compress_vec(&p, TEST_DATA), COMPRESSED_DATA.to_vec());
    assert_eq!(decompress_vec(&p, &COMPRESSED_DATA), TEST_DATA.to_vec());
}

#[test]
fn a_long_run_is_sent_as_matches() {
    let p = LzssDyn::new(10, 4, 0x20).unwrap();
    let c = compress_vec(&p, &[0x20u8; 17]);
    // one match of the longest length against the most recent fill byte:
    // flag 0, offset 1006, length field 15, then one bit of padding
    assert_eq!(c, vec![0x7d, 0xde]);
}

#[test]
fn a_single_byte_is_a_literal() {
    let p = LzssDyn::new(10, 4, 0x20).unwrap();
    assert_eq!(compress_vec(&p, b"A"), vec![0xa0, 0x80]);
}

#[test]
fn parameter_validation_table() {
    assert_eq!(LzssDyn::new(10, 0, 0x20).err(), Some(LzssDynError::EjIsZero));
    assert_eq!(LzssDyn::new(4, 10, 0x20).err(), Some(LzssDynError::EiNotLargerThanEj));
    assert_eq!(LzssDyn::new(4, 4, 0x20).err(), Some(LzssDynError::EiNotLargerThanEj));
    assert_eq!(LzssDyn::new(3, 2, 0x20).err(), Some(LzssDynError::EiEjToSmall));
    assert_eq!(LzssDyn::new(20, 10, 0x20).err(), Some(LzssDynError::EiEjToLarge));
    assert_eq!(LzssDyn::new(30, 5, 0x20).err(), Some(LzssDynError::EiEjToLarge));
    let p = LzssDyn::new(10, 4, 0x20).unwrap();
    assert_eq!((p.ei(), p.ej(), p.c()), (10, 4, 0x20));
    assert!(LzssDyn::new(23, 1, 0x20).is_ok());
    assert!(LzssDyn::new(5, 3, 0x20).is_ok());
}

#[test]
fn parameter_sweep_matches_the_rules() {
    for ej in 0..=12usize {
        for ei in 0..=24usize {
            let ok = ej > 0 && ei > ej && ei + ej >= 8 && ei + ej <= 24;
            assert_eq!(LzssDyn::new(ei, ej, 0x20).is_ok(), ok, "ei={ei} ej={ej}");
        }
    }
}

#[test]
fn error_messages_are_not_empty() {
    for e in [
        LzssDynError::EjIsZero,
        LzssDynError::EiNotLargerThanEj,
        LzssDynError::EiEjToSmall,
        LzssDynError::EiEjToLarge,
    ] {
        assert!(!e.message().is_empty());
    }
    assert_eq!(LzssDynError::EjIsZero.message(), "Invalid EJ, must be larger than 0");
}

#[test]
fn min_offset_value() {
    type T = Lzss<10, 4, 0x20, { 1 << 10 }, { 2 << 10 }>;
    assert_eq!(T::min_offset(), 1012);
    assert_eq!(LzssDyn::new(10, 4, 0x20).unwrap().min_offset(), 1012);
}

#[test]
fn in_place_rejects_small_offsets_and_empty_input() {
    type T = Lzss<10, 4, 0x20, { 1 << 10 }, { 2 << 10 }>;
    let mut io = vec![1u8; 1100];
    let before = io.clone();
    assert_eq!(T::compress_in_place(&mut io, 1011), (0, Some(1011)));
    assert_eq!(io, before);
    assert_eq!(T::compress_in_place(&mut io, 1100), (0, None));
    assert_eq!(T::compress_in_place(&mut io, 5000), (0, None));
    assert_eq!(io, before);
}

#[test]
fn in_place_stops_early_and_keeps_the_rest() {
    type T = Lzss<10, 4, 0x20, { 1 << 10 }, { 2 << 10 }>;
    let input: Vec<u8> = (0..400u32).map(|i| (i * 7919 % 251) as u8).collect();
    let offset = T::min_offset();
    let mut io = vec![0u8; offset + input.len()];
    io[offset..].copy_from_slice(&input);
    let (c, rest) = T::compress_in_place(&mut io, offset);
    let rest = rest.expect("incompressible input leaves a rest");
    assert!(c < rest);
    // the output came within the gap (P + 4 = 5) of the window start rest - (N - F)
    assert!(c + 5 > rest - 1007);
    assert_eq!(&io[rest..], &input[rest - offset..]);
    for q in rest - 1007..io.len() {
        let expected = if q < offset { 0x20 } else { input[q - offset] };
        assert_eq!(io[q], expected, "window byte {q}");
    }
    let mut out = T::decompress(SliceReader::new(&io[..c]), VecWriter::with_capacity(400))
        .void_unwrap();
    out.extend_from_slice(&io[rest..]);
    assert_eq!(out, input);
}

#[test]
fn slice_writer_overflow_is_a_write_error() {
    let p = LzssDyn::new(10, 4, 0x20).unwrap();
    let mut out = [0u8; 10];
    let r = p.compress(SliceReader::new(TEST_DATA), SliceWriter::new(&mut out));
    assert_eq!(r.unwrap_read(), Err(SliceWriteError));
}

#[test]
fn slice_writer_counts_bytes() {
    let p = LzssDyn::new(10, 4, 0x20).unwrap();
    let mut out = [0u8; 30];
    let r = p.compress(SliceReader::new(TEST_DATA), SliceWriter::new(&mut out));
    assert_eq!(r.unwrap_read(), Ok(26));
    assert_eq!(out[..26], COMPRESSED_DATA);
}

#[test]
fn slice_writer_exact_needs_the_exact_size() {
    type T = Lzss<10, 4, 0x20, { 1 << 10 }, { 2 << 10 }>;
    let mut out = [0u8; 26];
    let r = T::compress(SliceReader::new(TEST_DATA), SliceWriterExact::new(&mut out));
    assert_eq!(r.unwrap_read(), Ok(()));
    assert_eq!(out, COMPRESSED_DATA);
    let mut big = [0u8; 27];
    let r = T::compress(SliceReader::new(TEST_DATA), SliceWriterExact::new(&mut big));
    assert_eq!(r.unwrap_read(), Err(SliceWriteError));
}

struct FailingReader {
    left: usize,
}

impl Read for FailingReader {
    type Error = &'static str;
    fn read(&mut self) -> Result<Option<u8>, Self::Error> {
        if self.left == 0 {
            Err("broken")
        } else {
            self.left -= 1;
            Ok(Some(b'x'))
        }
    }
}

#[test]
fn a_failing_reader_is_a_read_error() {
    let p = LzssDyn::new(10, 4, 0x20).unwrap();
    let r = p.compress(FailingReader { left: 3 }, VecWriter::with_capacity(8));
    assert_eq!(r.unwrap_write(), Err("broken"));
    let r = p.decompress(FailingReader { left: 3 }, VecWriter::with_capacity(8));
    assert_eq!(r.unwrap_write(), Err("broken"));
}

struct CountingWriter {
    bytes: Vec<u8>,
}

impl Write for CountingWriter {
    type Output = usize;
    type Error = ();
    fn write(&mut self, data: u8) -> Result<(), Self::Error> {
        self.bytes.push(data);
        Ok(())
    }
    fn finish(self) -> Result<Self::Output, Self::Error> {
        Ok(self.bytes.len())
    }
}

#[test]
fn a_custom_writer_gets_every_byte() {
    let p = LzssDyn::new(10, 4, 0x20).unwrap();
    let r = p.compress(SliceReader::new(TEST_DATA), CountingWriter { bytes: Vec::new() });
    assert_eq!(r, Ok(26));
}

#[test]
fn map_errors_change_one_side() {
    let e: LzssError<u8, u16> = LzssError::ReadError(3);
    assert_eq!(e.map_read_error(|x| x as u32 + 1), LzssError::ReadError(4u32));
    let e: LzssError<u8, u16> = LzssError::WriteError(5);
    assert_eq!(e.map_read_error(|x| x as u32 + 1), LzssError::WriteError(5u16));
    let e: LzssError<u8, u16> = LzssError::WriteError(5);
    assert_eq!(e.map_write_error(|x| x * 2), LzssError::WriteError(10u16));
    let e: LzssError<u8, u16> = LzssError::ReadError(3);
    assert_eq!(e.map_write_error(|x| x * 2), LzssError::ReadError(3u8));
}

#[test]
fn truncated_input_gives_a_shorter_output() {
    let p = LzssDyn::new(10, 4, 0x20).unwrap();
    let out = decompress_vec(&p, &COMPRESSED_DATA[..10]);
    assert!(out.len() < TEST_DATA.len());
    assert_eq!(&out[..], &TEST_DATA[..out.len()]);
}

#[test]
fn slice_reader_yields_then_ends() {
    let data = [10u8, 42];
    let mut r = SliceReader::new(&data);
    assert_eq!(r.read(), Ok(Some(10)));
    assert_eq!(r.read(), Ok(Some(42)));
    assert_eq!(r.read(), Ok(None));
    assert_eq!(r.read(), Ok(None));
}

#[test]
fn output_is_at_most_nine_eighths_of_the_input() {
    for (ei, ej) in [(10, 4), (5, 3), (9, 8)] {
        let p = LzssDyn::new(ei, ej, 0x20).unwrap();
        for input in sample_inputs() {
            let c = compress_vec(&p, &input);
            assert!(8 * c.len() <= 9 * input.len() + 7, "ei={ei} ej={ej}");
        }
    }
}

#[test]
fn in_place_with_room_never_stops_early() {
    let p = LzssDyn::new(10, 4, 0x20).unwrap();
    for input in sample_inputs() {
        if input.is_empty() {
            continue;
        }
        let offset = p.min_offset() + input.len() / 8;
        let mut io = vec![0u8; offset + input.len()];
        io[offset..].copy_from_slice(&input);
        let (c, rest) = p.compress_in_place(&mut io, offset);
        assert_eq!(rest, None);
        assert_eq!(io[..c].to_vec(), compress_vec(&p, &input));
    }
}
