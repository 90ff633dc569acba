use matrix_cipher::codec::{
    blocks_to_samples, blocks_to_text, decode_audio_stream, encode_audio_stream, read_columns,
    samples_to_blocks, text_to_blocks, words_to_blocks,
};
use matrix_cipher::encryption::{
    dectrypt_matrix_with_key_direct, encrypt_matrix_with_key, gen_key, SolutionMethod,
};
use matrix_cipher::matrix::{Matrix, MatrixError};

fn key4() -> Matrix<i64> {
    Matrix::from(vec![
        vec![10, 1, 2, 0],
        vec![2, 10, 1, 1],
        vec![0, 1, 10, 2],
        vec![1, 2, 0, 10],
    ])
}

fn widen(m: &Matrix<u8>) -> Matrix<i64> {
    Matrix::from(m.data.iter().map(|r| r.iter().map(|&x| x as i64).collect()).collect())
}

fn narrow(m: &Matrix<i64>) -> Matrix<u8> {
    Matrix::from(m.data.iter().map(|r| r.iter().map(|&x| x as u8).collect()).collect())
}

#[test]
fn encrypt_multiplies_by_the_triangle_product() {
    let x = Matrix::from(vec![vec![7, 7], vec![4, 3], vec![6, 7], vec![5, 4]]);
    let y = encrypt_matrix_with_key(&key4(), &x).unwrap();
    assert_eq!(y.data, vec![vec![860, 870], vec![682, 584], vec![751, 821], vec![688, 569]]);
}

#[test]
fn encrypt_rejects_mismatched_shapes() {
    let x = Matrix::from(vec![vec![1], vec![2], vec![3]]);
    assert_eq!(encrypt_matrix_with_key(&key4(), &x).unwrap_err(), MatrixError::DimensionMismatch);
    let not_square = Matrix::from(vec![vec![1, 0, 0], vec![0, 1, 0]]);
    let x2 = Matrix::from(vec![vec![1], vec![2], vec![3]]);
    assert_eq!(encrypt_matrix_with_key(&not_square, &x2).unwrap_err(), MatrixError::DimensionMismatch);
}

#[test]
fn direct_decryption_inverts_encryption() {
    let x = Matrix::from(vec![vec![7, 7, -2], vec![4, 3, 0], vec![6, 7, 15], vec![5, 4, 9]]);
    let y = encrypt_matrix_with_key(&key4(), &x).unwrap();
    let back = dectrypt_matrix_with_key_direct(&key4(), y).unwrap();
    assert_eq!(back.data, x.data);
}

#[test]
fn text_round_trip_with_a_dimension_four_key() {
    let (len, blocks) = text_to_blocks("test", 4).unwrap();
    assert_eq!(len, 8);
    assert_eq!(blocks.data, vec![vec![7, 7], vec![4, 3], vec![6, 7], vec![5, 4]]);
    let key = gen_key(4, false).entries;
    let y = encrypt_matrix_with_key(&key, &widen(&blocks)).unwrap();
    let x = dectrypt_matrix_with_key_direct(&key, y.clone()).unwrap();
    assert_eq!(blocks_to_text(&narrow(&x), len).unwrap(), b"test".to_vec());

    let other = Matrix::from(vec![
        vec![10, 2, 2, 2],
        vec![2, 10, 2, 2],
        vec![2, 2, 10, 2],
        vec![2, 2, 2, 10],
    ]);
    let differs = match dectrypt_matrix_with_key_direct(&other, y) {
        Ok(x2) => blocks_to_text(&narrow(&x2), len) != Ok(b"test".to_vec()),
        Err(_) => true,
    };
    assert!(differs || key.data == other.data);
}

#[test]
fn padded_text_round_trip() {
    let (len, blocks) = text_to_blocks("hello", 3).unwrap();
    assert_eq!(len, 10);
    assert_eq!((blocks.n, blocks.m), (3, 4));
    let y = encrypt_matrix_with_key(&Matrix::from(vec![vec![1, 1, 1], vec![2, 1, 0], vec![1, 2, 1]]), &widen(&blocks)).unwrap();
    let k = Matrix::from(vec![vec![1, 1, 1], vec![2, 1, 0], vec![1, 2, 1]]);
    let x = dectrypt_matrix_with_key_direct(&k, y).unwrap();
    assert_eq!(blocks_to_text(&narrow(&x), len).unwrap(), b"hello".to_vec());
    assert_eq!(read_columns(&narrow(&x))[10..], [15, 15]);
}

#[test]
fn direct_decryption_errors() {
    let y = Matrix::from(vec![vec![1], vec![2]]);
    assert_eq!(dectrypt_matrix_with_key_direct(&key4(), y.clone()).unwrap_err(), MatrixError::DimensionMismatch);
    let singular = Matrix::from(vec![vec![1, 0], vec![3, 0]]);
    assert_eq!(dectrypt_matrix_with_key_direct(&singular, y.clone()).unwrap_err(), MatrixError::Singular);
    let k = Matrix::from(vec![vec![2, 0], vec![0, 1]]);
    assert_eq!(dectrypt_matrix_with_key_direct(&k, y).unwrap_err(), MatrixError::Inexact);
}

#[test]
fn generated_key_has_unit_diagonal() {
    for n in [2usize, 4, 9, 10, 12, 100] {
        let key = gen_key(n, false);
        let scale = 10i64.pow(key.digits);
        assert_eq!(key.digits, n.to_string().len() as u32);
        assert_eq!((key.entries.n, key.entries.m), (n, n));
        for i in 0..n {
            for j in 0..n {
                let v = key.entries.data[i][j];
                if i == j {
                    assert_eq!(v, scale);
                } else {
                    assert!(v >= 0 && v <= scale / n as i64);
                }
            }
        }
    }
}

#[test]
fn generated_whole_number_key() {
    let n = 5usize;
    let key = gen_key(n, true);
    assert_eq!(key.digits, 0);
    for i in 0..n {
        for j in 0..n {
            let v = key.entries.data[i][j];
            if i == j {
                assert_eq!(v, 5);
            } else {
                assert!((0..=10).contains(&v));
            }
        }
    }
}

#[test]
fn generated_keys_decrypt_what_they_encrypt() {
    for integer in [false, true] {
        let key = gen_key(6, integer).entries;
        let x = Matrix::from((0..6).map(|i| (0..5).map(|j| ((i * 5 + j) % 16) as i64).collect()).collect());
        let y = encrypt_matrix_with_key(&key, &x).unwrap();
        assert_eq!(dectrypt_matrix_with_key_direct(&key, y).unwrap().data, x.data);
    }
}

#[test]
fn solution_methods_are_distinct() {
    assert_ne!(SolutionMethod::Direct, SolutionMethod::Iterative(100));
    assert_eq!(SolutionMethod::Iterative(3), SolutionMethod::Iterative(3));
}

#[test]
fn eight_sample_audio_round_trip() {
    let samples: Vec<i16> = vec![100, -200, 3000, -4000, 0, 32767, -32768, 12345];
    let key = key4();
    let (len, blocks) = samples_to_blocks(&samples, key.n).unwrap();
    assert_eq!(len, 32);
    let y = encrypt_matrix_with_key(&key, &widen(&blocks)).unwrap();
    let words: Vec<u32> = read_columns(&y).iter().map(|&v| v as u32).collect();
    let stream = encode_audio_stream(len, &words).unwrap();
    assert_eq!(stream.len(), 2 + 2 * words.len());
    let (len2, words2) = decode_audio_stream(&stream).unwrap();
    assert_eq!(len2, 32);
    let back = words_to_blocks(words2, key.n).unwrap();
    let y2 = Matrix::from(back.data.iter().map(|r| r.iter().map(|&v| v as i64).collect()).collect());
    let x = dectrypt_matrix_with_key_direct(&key, y2).unwrap();
    assert_eq!(blocks_to_samples(&narrow(&x), len2), Ok(samples));
}
