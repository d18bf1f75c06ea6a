use squeeze::build_bmp;
use squeeze::compute_histogram;
use squeeze::get_error_data;
use squeeze::get_header_data;
use squeeze::get_prediction_type;
use squeeze::get_predictor;
use squeeze::predict;
use squeeze::reconstruct_image;
use squeeze::BitReader;
use squeeze::MyCustomImage;
use squeeze::Predictiv;
use squeeze::PredictivError;

#[test]
fn predictor_formulas() {
    assert_eq!(get_predictor(0).apply(10, 20, 5), 128);
    assert_eq!(get_predictor(1).apply(10, 20, 5), 10);
    assert_eq!(get_predictor(2).apply(10, 20, 5), 20);
    assert_eq!(get_predictor(3).apply(10, 20, 5), 5);
    assert_eq!(get_predictor(4).apply(10, 20, 5), 25);
    assert_eq!(get_predictor(5).apply(10, 20, 5), 12);
    assert_eq!(get_predictor(6).apply(10, 20, 5), 7);
    assert_eq!(get_predictor(7).apply(10, 20, 5), 15);
    // An unknown type falls back to the gradient rule.
    assert_eq!(get_predictor(12).apply(10, 20, 5), 25);
}

#[test]
fn predictor_truncating_halves() {
    // Integer halving rounds toward zero, also for negative sums.
    assert_eq!(get_predictor(7).apply(-3, 0, 0), -1);
    assert_eq!(get_predictor(7).apply(3, 0, 0), 1);
}

#[test]
fn predictor_paeth() {
    // p = a + b - c = 13; the neighbour nearest to p is a.
    assert_eq!(get_predictor(8).apply(10, 8, 5), 10);
    // p = 1 + 9 - 8 = 2; the neighbour nearest to p is a = 1.
    assert_eq!(get_predictor(8).apply(1, 9, 8), 1);
}

#[test]
fn predictor_root_energy() {
    // |3*3 - 0 - 0| = 9, and the square root of 9 is 3.
    assert_eq!(get_predictor(9).apply(3, 0, 0), 3);
    // |0 - 4 - 4| = 8; the root of 8 rounds to 3.
    assert_eq!(get_predictor(9).apply(0, 2, 2), 3);
    // |0 - 1 - 1| = 2; the root of 2 rounds to 1.
    assert_eq!(get_predictor(9).apply(0, 1, 1), 1);
}

#[test]
fn histogram_counts_buckets() {
    let data = vec![vec![0i32, 255, 255, 300, -5], vec![10i32, 10, 10]];
    let hist = compute_histogram(&data, false);
    assert_eq!(hist[0], 2); // 0 and the clamped -5
    assert_eq!(hist[255], 3); // 255, 255 and the clamped 300
    assert_eq!(hist[10], 3);
    let total: u64 = hist.iter().map(|&c| c as u64).sum();
    assert_eq!(total, 8);
}

#[test]
fn histogram_error_shift() {
    let data = vec![vec![-128i32, 0, 127]];
    let hist = compute_histogram(&data, true);
    assert_eq!(hist[0], 1);
    assert_eq!(hist[128], 1);
    assert_eq!(hist[255], 1);
}

#[test]
fn predict_and_reconstruct_invert() {
    // A constant image keeps every error within the signed-byte range.
    let rows: Vec<Vec<i32>> = (0..256).map(|_| vec![100i32; 256]).collect();
    let image = MyCustomImage {
        height: 256,
        width: 256,
        data: rows.clone(),
    };
    let errors = predict(&image, 4);
    for row in &errors.data {
        for &e in row {
            assert!((-128..=127).contains(&e));
        }
    }
    let decoded = reconstruct_image(&errors.data, 4).expect("reconstruction succeeds");
    assert_eq!(decoded, rows);
}

#[test]
fn predictiv_type_matches_free_functions() {
    let rows: Vec<Vec<i32>> = (0..4).map(|y| (0..4).map(|x| (y * 16 + x) as i32).collect()).collect();
    let a = Predictiv {
        height: 4,
        width: 4,
        data: rows.clone(),
    };
    let b = MyCustomImage {
        height: 4,
        width: 4,
        data: rows,
    };
    assert_eq!(a.predict(4).data, predict(&b, 4).data);
}

#[test]
fn bmp_is_bottom_up_and_tripled() {
    let mut rows = vec![vec![0i32; 256]; 256];
    rows[255][0] = 7;
    rows[0][1] = 300; // clamps to 255
    let header = [1u8, 2u8];
    let bmp = build_bmp(&header, &rows);
    assert_eq!(bmp.len(), 2 + 256 * 256 * 3);
    assert_eq!(&bmp[0..2], &header);
    // The bottom row of the image comes first.
    assert_eq!(&bmp[2..5], &[7u8, 7, 7]);
    // The top row comes last; its second pixel was clamped.
    let top_start = 2 + 255 * 256 * 3;
    assert_eq!(&bmp[top_start + 3..top_start + 6], &[255u8, 255, 255]);
}

#[test]
fn header_and_error_data_reads() {
    let mut payload = vec![0xAAu8; 1078];
    payload[0] = 0x42;
    // Four bits of prediction type (0b0011) then the 256*256 error bytes.
    let mut stream = payload.clone();
    stream.push(0b0011_0000);
    // Error bytes are offset by four bits; for this test feed zero errors, so
    // the remaining bits stay zero.
    stream.extend(std::iter::repeat(0u8).take(256 * 256));

    let mut reader = BitReader::new(&stream);
    let header = get_header_data(&mut reader).expect("header present");
    assert_eq!(header.len(), 1078);
    assert_eq!(header[0], 0x42);
    assert_eq!(header[1], 0xAA);

    let ptype = get_prediction_type(&mut reader).expect("type present");
    assert_eq!(ptype, 3);

    let errors = get_error_data(&mut reader).expect("errors present");
    assert_eq!(errors.len(), 256);
    assert_eq!(errors[0][0], 0);
}

#[test]
fn truncated_streams_are_reported() {
    let short = [0u8; 10];
    let mut reader = BitReader::new(&short);
    assert_eq!(
        get_header_data(&mut reader),
        Err(PredictivError::TruncatedInput)
    );

    let mut reader = BitReader::new(&short[0..0]);
    assert_eq!(
        get_prediction_type(&mut reader),
        Err(PredictivError::TruncatedInput)
    );
}

#[test]
fn signed_error_bytes() {
    // One full header, type bits, then an error byte of 0xFF = -1 at the
    // four-bit offset: 0xFF shifted right four places across two bytes.
    let mut stream = vec![0u8; 1078];
    stream.push(0b0100_1111); // type 4, then the first four bits of 0xFF
    stream.push(0b1111_0000); // the last four bits of 0xFF, then zeros
    stream.extend(std::iter::repeat(0u8).take(256 * 256));

    let mut reader = BitReader::new(&stream);
    let _ = get_header_data(&mut reader).expect("header present");
    let ptype = get_prediction_type(&mut reader).expect("type present");
    assert_eq!(ptype, 4);
    let errors = get_error_data(&mut reader).expect("errors present");
    assert_eq!(errors[0][0], -1);
    assert_eq!(errors[0][1], 0);
}
