use lzss::{Lzss, ResultLzssErrorVoidReadExt, SliceReader, SliceWriter};

const INIT_BYTE: u8 = 0x20;
const EXAMPLE_DATA: &[u8] = br#"
/* LZSS encoder-decoder (Haruhiko Okumura; public domain) */

void decode(void)
{
    int i, j, k, r, c;

    for (i = 0; i < N - F; i++) buffer[i] = ' ';
    r = N - F;
    while ((c = getbit(1)) != EOF) {
        if (c) {
            if ((c = getbit(8)) == EOF) break;
            fputc(c, outfile);
            buffer[r++] = c;  r &= (N - 1);
        } else {
            if ((i = getbit(EI)) == EOF) break;
            if ((j = getbit(EJ)) == EOF) break;
            for (k = 0; k <= j + 1; k++) {
                c = buffer[(i + k) & (N - 1)];
                fputc(c, outfile);
                buffer[r++] = c;  r &= (N - 1);
            }
        }
    }
}
"#;

#[test]
fn compress_in_place() {
    const EI: usize = 8;
    const EJ: usize = 4;
    type MyLzss = Lzss<EI, EJ, INIT_BYTE, { 1 << EI }, { 2 << EI }>;

    let mut decompressed = vec![0; EXAMPLE_DATA.len()];
    for offset in MyLzss::min_offset() - 1..=2 << EI {
        let mut buffer = vec![!INIT_BYTE; (2 << EI) + EXAMPLE_DATA.len()];
        let compressed = &mut buffer[0..offset + EXAMPLE_DATA.len()];
        compressed[offset..].copy_from_slice(EXAMPLE_DATA);
        let (compressed_len, new_offset) = MyLzss::compress_in_place(compressed, offset);
        match MyLzss::decompress(
            SliceReader::new(&compressed[0..compressed_len]),
            SliceWriter::new(&mut decompressed),
        )
        .void_read_unwrap()
        {
            Ok(decompressed_len) => {
                if let Some(new_offset) = new_offset {
                    assert_eq!(
                        decompressed_len + (compressed.len() - new_offset),
                        EXAMPLE_DATA.len(),
                        "LZSS::compress_in_place(offset={offset}): decompressed size error"
                    );
                    decompressed[decompressed_len..].copy_from_slice(&compressed[new_offset..]);
                }
                assert_eq!(
                    &decompressed[..],
                    EXAMPLE_DATA,
                    "LZSS::compress_in_place(offset={offset}): decompressed data does not match"
                );
            }
            Err(error) => {
                panic!("LZSS::compress_in_place(offset={offset}): decompress failed: {error:?}")
            }
        }
    }
}
