use lzss::{Lzss, LzssDyn, ResultLzssErrorVoidExt, SliceReader, VecWriter};

const TEST_DATA: &[u8; 27] = b"Sample   Data   11221233123";
const COMPRESSED_DATA: [u8; 26] = [
    169, 216, 109, 183, 11, 101, 149, 246, 13, 18, 195, 116, 176, 191, 81, 152, 204, 102, 83, 32,
    0, 19, 57, 152, 3, 16,
];

const BIG_TEST_DATA: &[u8] = br#"
/* LZSS encoder-decoder (Haruhiko Okumura; public domain) */

void decode(void)
{
    int i, j, k, r, c;

    for (i = 0; i < N - F; i++) buffer[i] = ' ';
    r = N - F;
    while ((c = getbit(1)) != EOF) {
        if (c) {
            if ((c = getbit(8)) == EOF) break;
            fputc(c, outfile);
            buffer[r++] = c;  r &= (N - 1);
        } else {
            if ((i = getbit(EI)) == EOF) break;
            if ((j = getbit(EJ)) == EOF) break;
            for (k = 0; k <= j + 1; k++) {
                c = buffer[(i + k) & (N - 1)];
                fputc(c, outfile);
                buffer[r++] = c;  r &= (N - 1);
            }
        }
    }
}
"#;

fn test_lzss() -> LzssDyn {
    Lzss::<10, 4, 0x20, { 1 << 10 }, { 2 << 10 }>::as_dyn()
}

#[test]
fn test_decompress() {
    let output = test_lzss()
        .decompress(
            SliceReader::new(&COMPRESSED_DATA),
            VecWriter::with_capacity(TEST_DATA.len()),
        )
        .void_unwrap();
    assert_eq!(output.as_slice(), TEST_DATA);
}

#[test]
fn test_compress() {
    let output = test_lzss()
        .compress(
            SliceReader::new(TEST_DATA),
            VecWriter::with_capacity(COMPRESSED_DATA.len()),
        )
        .void_unwrap();
    assert_eq!(output.as_slice(), COMPRESSED_DATA);
}

#[test]
fn test_compress_big() {
    let big_test_data = BIG_TEST_DATA;
    let output1 = test_lzss()
        .compress(
            SliceReader::new(big_test_data),
            VecWriter::with_capacity(big_test_data.len()),
        )
        .void_unwrap();
    let output2 = test_lzss()
        .decompress(
            SliceReader::new(&output1),
            VecWriter::with_capacity(big_test_data.len()),
        )
        .void_unwrap();
    assert_eq!(output2.as_slice(), big_test_data);
}

#[test]
fn test_decompress_with_buffer() {
    let mut buffer = [0u8; 1111];
    let output = test_lzss()
        .decompress_with_buffer(
            SliceReader::new(&COMPRESSED_DATA),
            VecWriter::with_capacity(TEST_DATA.len()),
            &mut buffer,
        )
        .void_unwrap();
    assert_eq!(output.as_slice(), TEST_DATA);
}

#[test]
fn test_compress_with_buffer() {
    let mut buffer = [0u8; 2222];
    let output = test_lzss()
        .compress_with_buffer(
            SliceReader::new(TEST_DATA),
            VecWriter::with_capacity(COMPRESSED_DATA.len()),
            &mut buffer,
        )
        .void_unwrap();
    assert_eq!(output.as_slice(), COMPRESSED_DATA);
}
