use pyco8::pyapi::{
    get_sprite_data, make_request, parse_sprite_digits, set_sprite_data, RequestHolder,
};

#[test]
fn requests_queue_in_order() {
    let mut h: RequestHolder<u32> = RequestHolder::new([[0; 64]; 1]);
    make_request(&mut h, 1);
    make_request(&mut h, 2);
    assert_eq!(h.requests, vec![1, 2]);
}

#[test]
fn sprite_data_read_after_write() {
    let mut h: RequestHolder<u32> = RequestHolder::new([[0; 64]; 1]);
    assert_eq!(get_sprite_data(&h, 0), [0; 64]);
    let mut d = [0u8; 64];
    d[5] = 9;
    set_sprite_data(&mut h, 0, d);
    assert_eq!(get_sprite_data(&h, 0), d);
    assert!(h.requests.is_empty());
}

#[test]
fn parse_digits_fills_first_sprite() {
    let d = parse_sprite_digits("0123\n\n");
    assert_eq!(&d[0][..5], &[0, 1, 2, 3, 0]);
    let d = parse_sprite_digits("");
    assert_eq!(d, [[0; 64]; 1]);
    let full: String = std::iter::repeat('9').take(64).collect();
    let d = parse_sprite_digits(&full);
    assert_eq!(d[0], [9; 64]);
}
