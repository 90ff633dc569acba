use matrix_cipher::codec::{
    blocks_to_samples, decode_audio_stream, decode_text_ciphertext, encode_audio_stream,
    encode_text_ciphertext, letters_to_words, matrix_to_vector, nibbles_to_bytes,
    nibbles_to_samples, read_columns, read_two_digit_text, samples_to_blocks, samples_to_nibbles,
    string_to_vector, text_to_blocks, vector_to_matrix, words_to_blocks, words_to_letters,
    CodecError,
};
use matrix_cipher::keyfile::{key_from_bytes, key_to_bytes};
use matrix_cipher::matrix::Matrix;

#[test]
fn string_to_vector_gives_code_points() {
    assert_eq!(string_to_vector("test"), vec![116, 101, 115, 116]);
    assert_eq!(string_to_vector("aé€"), vec![97, 233, 8364]);
    assert_eq!(string_to_vector(""), Vec::<usize>::new());
}

#[test]
fn read_two_digit_text_splits_into_pieces() {
    assert_eq!(read_two_digit_text("test"), vec![7, 4, 6, 5, 7, 3, 7, 4]);
    assert_eq!(read_two_digit_text("\n"), vec![0, 10]);
    assert_eq!(read_two_digit_text(""), Vec::<u8>::new());
}

#[test]
fn words_become_letters_and_back() {
    let letters = words_to_letters(&vec![0x12345678, 0xffff0000]);
    assert_eq!(letters, b"bcdefghippppaaaa".to_vec());
    assert_eq!(letters_to_words(&letters), Ok(vec![0x12345678, 0xffff0000]));
}

#[test]
fn letters_errors() {
    assert_eq!(letters_to_words(b"abc"), Err(CodecError::BadLength));
    assert_eq!(letters_to_words(b"abcdefgq"), Err(CodecError::InvalidSymbol));
    assert_eq!(letters_to_words(b"Abcdefgh"), Err(CodecError::InvalidSymbol));
    assert_eq!(letters_to_words(b""), Ok(vec![]));
}

#[test]
fn text_ciphertext_layout() {
    let c = encode_text_ciphertext(8, &vec![0x12345678]);
    assert_eq!(c, b"8 bcdefghi".to_vec());
    assert_eq!(decode_text_ciphertext(&c), Ok((8, vec![0x12345678])));
    let big = encode_text_ciphertext(1234567, &vec![0, 1]);
    assert_eq!(&big[..8], b"1234567 ");
    assert_eq!(decode_text_ciphertext(&big), Ok((1234567, vec![0, 1])));
    assert_eq!(encode_text_ciphertext(0, &vec![]), b"0 ".to_vec());
}

#[test]
fn text_ciphertext_errors() {
    assert_eq!(decode_text_ciphertext(b"12bcdefghi"), Err(CodecError::BadHeader));
    assert_eq!(decode_text_ciphertext(b" bcdefghi"), Err(CodecError::BadHeader));
    assert_eq!(decode_text_ciphertext(b"12"), Err(CodecError::BadHeader));
    assert_eq!(decode_text_ciphertext(b"99999999999999999999999 abcdefgh"), Err(CodecError::BadHeader));
    assert_eq!(decode_text_ciphertext(b"4 abc"), Err(CodecError::BadLength));
    assert_eq!(decode_text_ciphertext(b"4 abcdefgz"), Err(CodecError::InvalidSymbol));
    assert_eq!(decode_text_ciphertext(b"007 aaaaaaab"), Ok((7, vec![1])));
}

#[test]
fn samples_split_into_pieces() {
    assert_eq!(samples_to_nibbles(&vec![0x1234, -1, 0]), vec![1, 2, 3, 4, 15, 15, 15, 15, 0, 0, 0, 0]);
}

#[test]
fn pieces_glue_back_into_samples() {
    let p = vec![1, 2, 3, 4, 15, 15, 15, 15, 9, 9];
    assert_eq!(nibbles_to_samples(&p, 8), Ok(vec![0x1234, -1]));
    assert_eq!(nibbles_to_samples(&p, 12), Err(CodecError::HeaderTooLong));
    assert_eq!(nibbles_to_samples(&p, 6), Err(CodecError::BadLength));
}

#[test]
fn pieces_glue_back_into_bytes() {
    let p = vec![7, 4, 6, 5, 7, 3, 7, 4, 4, 4];
    assert_eq!(nibbles_to_bytes(&p, 8), Ok(b"test".to_vec()));
    assert_eq!(nibbles_to_bytes(&p, 11), Err(CodecError::HeaderTooLong));
    assert_eq!(nibbles_to_bytes(&p, 7), Err(CodecError::BadLength));
}

#[test]
fn audio_stream_layout() {
    let s = encode_audio_stream(8, &vec![0xdeadbeef, 0x00010002]).unwrap();
    assert_eq!(s, vec![0, 8, 0xdeadu16 as i16, 0xbeefu16 as i16, 1, 2]);
    assert_eq!(decode_audio_stream(&s), Ok((8, vec![0xdeadbeef, 0x00010002])));
    let long = encode_audio_stream(0x0001_0002, &vec![]).unwrap();
    assert_eq!(long, vec![1, 2]);
}

#[test]
fn audio_stream_errors() {
    assert_eq!(encode_audio_stream(1usize << 32, &vec![]), Err(CodecError::LengthTooLarge));
    assert_eq!(decode_audio_stream(&[1, 2, 3]), Err(CodecError::BadLength));
    assert_eq!(decode_audio_stream(&[]), Err(CodecError::BadHeader));
}

#[test]
fn padding_repeats_the_last_element() {
    let m = vector_to_matrix(vec![1, 2, 3, 4, 5], 3);
    assert_eq!((m.n, m.m), (3, 2));
    assert_eq!(m.data, vec![vec![1, 4], vec![2, 5], vec![3, 5]]);
    assert_eq!(read_columns(&m), vec![1, 2, 3, 4, 5, 5]);
}

#[test]
fn no_padding_on_whole_chunks() {
    let m = vector_to_matrix(vec![1, 2, 3, 4, 5, 6], 3);
    assert_eq!((m.n, m.m), (3, 2));
    assert_eq!(read_columns(&m), vec![1, 2, 3, 4, 5, 6]);
    assert_eq!(matrix_to_vector(&m), vec![1, 4, 2, 5, 3, 6]);
}

#[test]
fn blocks_of_samples_round_trip() {
    let samples = vec![0x1234, -2, 77];
    let (len, m) = samples_to_blocks(&samples, 5).unwrap();
    assert_eq!(len, 12);
    assert_eq!((m.n, m.m), (5, 3));
    assert_eq!(blocks_to_samples(&m, len), Ok(samples));
}

#[test]
fn empty_streams_are_refused() {
    assert!(matches!(text_to_blocks("", 4), Err(CodecError::Empty)));
    assert!(matches!(samples_to_blocks(&vec![], 4), Err(CodecError::Empty)));
    assert!(matches!(words_to_blocks(vec![], 4), Err(CodecError::Empty)));
    let w = words_to_blocks(vec![9, 8, 7], 2).unwrap();
    assert_eq!(w.data, vec![vec![9, 7], vec![8, 7]]);
}

#[test]
fn key_file_layout() {
    let key = Matrix::from(vec![vec![0x3f800000u32, 0x01020304], vec![0, 0xffffffff]]);
    let bytes = key_to_bytes(&key);
    assert_eq!(
        bytes,
        vec![0, 0, 0, 0, 0, 0, 0, 2, 0x3f, 0x80, 0, 0, 1, 2, 3, 4, 0, 0, 0, 0, 0xff, 0xff, 0xff, 0xff]
    );
    let back = key_from_bytes(&bytes).unwrap();
    assert_eq!((back.n, back.m), (2, 2));
    assert_eq!(back.data, key.data);
}

#[test]
fn key_file_errors() {
    assert!(matches!(key_from_bytes(&[0, 0, 0]), Err(CodecError::Truncated)));
    assert!(matches!(key_from_bytes(&[0, 0, 0, 0, 0, 0, 0, 2, 1, 2, 3, 4]), Err(CodecError::Truncated)));
    assert!(matches!(key_from_bytes(&[0xff; 16]), Err(CodecError::Truncated)));
    let empty = key_from_bytes(&[0, 0, 0, 0, 0, 0, 0, 0, 42]).unwrap();
    assert_eq!((empty.n, empty.m), (0, 0));
}
