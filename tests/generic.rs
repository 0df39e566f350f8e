use lzss::{Lzss, ResultLzssErrorVoidExt, SliceReader, VecWriter};

type TestLZSS = Lzss<10, 4, 0x20, { 1 << 10 }, { 2 << 10 }>;

const TEST_DATA: &[u8; 27] = b"Sample   Data   11221233123";
const COMPRESSED_DATA: [u8; 26] = [
    169, 216, 109, 183, 11, 101, 149, 246, 13, 18, 195, 116, 176, 191, 81, 152, 204, 102, 83, 32,
    0, 19, 57, 152, 3, 16,
];

const BIG_TEST_DATA: &[u8] = br#"
impl LzssDyn {
    pub fn new(ei: usize, ej: usize, c: u8) -> Result<Self, LzssDynError> {
        if ej == 0 {
            Err(LzssDynError::EjIsZero)
        } else if ej >= ei {
            Err(LzssDynError::EiNotLargerThanEj)
        } else if ei + ej < 8 {
            Err(LzssDynError::EiEjToSmall)
        } else if ei + ej > 24 {
            Err(LzssDynError::EiEjToLarge)
        } else {
            Ok(LzssDyn { ei, ej, c })
        }
    }
    pub fn compress_with_buffer<R: Read, W: Write>(
        &self,
        mut reader: R,
        mut writer: W,
        buffer: &mut [u8],
    ) -> Result<W::Output, LzssError<R::Error, W::Error>> {
        assert!(buffer.len() >= 2 * self.n());
        buffer[..self.n() - self.f()].fill(self.c);
        self.compress_internal(&mut reader, &mut writer, buffer)?;
        writer.finish().map_err(LzssError::WriteError)
    }
    pub fn decompress_with_buffer<R: Read, W: Write>(
        &self,
        mut reader: R,
        mut writer: W,
        buffer: &mut [u8],
    ) -> Result<W::Output, LzssError<R::Error, W::Error>> {
        assert!(buffer.len() >= self.n());
        buffer[..self.n()].fill(self.c);
        self.decompress_internal(&mut reader, &mut writer, buffer)?;
        writer.finish().map_err(LzssError::WriteError)
    }
}
"#;

#[test]
fn mod_test_decompress() {
    let output = TestLZSS::decompress_stack(
        SliceReader::new(&COMPRESSED_DATA),
        VecWriter::with_capacity(TEST_DATA.len()),
    )
    .void_unwrap();
    assert_eq!(output.as_slice(), TEST_DATA);
}

#[test]
fn mod_test_decompress_with_buffer() {
    let mut buffer = [123; 1024];
    let output = TestLZSS::decompress_with_buffer(
        SliceReader::new(&COMPRESSED_DATA),
        VecWriter::with_capacity(TEST_DATA.len()),
        &mut buffer,
    )
    .void_unwrap();
    assert_eq!(output.as_slice(), TEST_DATA);
}

#[test]
fn mod_test_compress() {
    let output = TestLZSS::compress_stack(
        SliceReader::new(TEST_DATA),
        VecWriter::with_capacity(COMPRESSED_DATA.len()),
    )
    .void_unwrap();
    assert_eq!(output.as_slice(), COMPRESSED_DATA);
}

#[test]
fn mod_test_compress_with_buffer() {
    let mut buffer = [123; 2048];
    let output = TestLZSS::compress_with_buffer(
        SliceReader::new(TEST_DATA),
        VecWriter::with_capacity(COMPRESSED_DATA.len()),
        &mut buffer,
    )
    .void_unwrap();
    assert_eq!(output.as_slice(), COMPRESSED_DATA);
}

#[test]
fn test_compress_in_place() {
    let offset: usize = TestLZSS::min_offset() + TEST_DATA.len() / 8;
    let mut io = vec![0u8; offset + TEST_DATA.len()];
    io[offset..].copy_from_slice(TEST_DATA);
    let (c, u) = TestLZSS::compress_in_place(&mut io, offset);
    assert_eq!(c, COMPRESSED_DATA.len());
    assert_eq!(u, None);
    assert_eq!(io[0..c], COMPRESSED_DATA);
}

#[test]
fn mod_test_compress_big() {
    let big_test_data = BIG_TEST_DATA;
    let output1 = TestLZSS::compress_stack(
        SliceReader::new(big_test_data),
        VecWriter::with_capacity(big_test_data.len()),
    )
    .void_unwrap();
    let offset: usize = TestLZSS::min_offset() + big_test_data.len() / 8;
    let mut io = Vec::new();
    io.resize(offset + big_test_data.len(), 0);
    let io = io.as_mut_slice();
    io[offset..].copy_from_slice(big_test_data);
    let (c, u) = TestLZSS::compress_in_place(io, offset);
    assert_eq!(u, None);
    assert_eq!(output1.as_slice(), &io[0..c]);
    let output2 = TestLZSS::decompress_stack(
        SliceReader::new(&io[0..c]),
        VecWriter::with_capacity(big_test_data.len()),
    )
    .void_unwrap();
    assert_eq!(output2.as_slice(), big_test_data);
}
