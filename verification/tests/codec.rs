use zinnia_peer::codec::{read_response, write_request, StreamHalf};

#[test]
fn round_trip_empty_payload() {
    let mut half = StreamHalf::new();
    write_request(&mut half, &Vec::new());
    assert!(half.is_write_closed());
    let got = read_response(&half).expect("closed stream must yield a response");
    assert_eq!(got, Vec::<u8>::new());
}

#[test]
fn round_trip_small_payload() {
    let payload: Vec<u8> = vec![1, 2, 3, 250, 255, 0, 42];
    let mut half = StreamHalf::new();
    write_request(&mut half, &payload);
    let got = read_response(&half).expect("closed stream must yield a response");
    assert_eq!(got, payload);
}

#[test]
fn round_trip_one_mebibyte() {
    let payload: Vec<u8> = (0..1048576u32).map(|i| (i % 251) as u8).collect();
    let mut half = StreamHalf::new();
    write_request(&mut half, &payload);
    let got = read_response(&half).expect("closed stream must yield a response");
    assert_eq!(got, payload);
}

#[test]
fn open_stream_does_not_yield_a_response() {
    let half = StreamHalf::new();
    assert!(read_response(&half).is_none());
}
