use fluorescence::blur::gaussian::fast_blur;

#[test]
fn fast_blur_centre_of_three_by_three() {
    let mut buffer: Vec<u32> = (0..9u32).map(|i| i * 0x010203).collect();
    let before = buffer.clone();
    fast_blur(&mut buffer, 1, 1, 2, 2, 3);
    for i in 0..9 {
        if i == 4 {
            assert_eq!(buffer[i], 0xFF04080C);
        } else {
            assert_eq!(buffer[i], before[i]);
        }
    }
}

#[test]
fn fast_blur_reads_what_it_has_written() {
    let mut buffer: Vec<u32> = vec![
        0x11223344, 0x00FF8000, 0x7F0000FF, 0x00000010, 0x80402010, 0x01020304, 0xFFFFFFFF,
        0x00000000, 0x0A0B0C0D, 0x10203040, 0x55667788, 0x99AABBCC,
    ];
    fast_blur(&mut buffer, 0, 0, 4, 2, 4);
    assert_eq!(
        buffer,
        vec![
            0xFF583516, 0xFF6E4E5C, 0xFF3D3867, 0xFF4F4D5D, 0xFF332523, 0xFF4F4950, 0xFF626372,
            0xFF55596C, 0x0A0B0C0D, 0x10203040, 0x55667788, 0x99AABBCC,
        ]
    );
}

#[test]
fn fast_blur_empty_rectangle_changes_nothing() {
    let mut buffer: Vec<u32> = vec![1, 2, 3, 4];
    fast_blur(&mut buffer, 1, 0, 1, 5, 2);
    assert_eq!(buffer, vec![1, 2, 3, 4]);
    fast_blur(&mut buffer, 0, 3, 2, 3, 2);
    assert_eq!(buffer, vec![1, 2, 3, 4]);
    let mut nothing: Vec<u32> = Vec::new();
    fast_blur(&mut nothing, 0, 0, 0, 0, 0);
    assert!(nothing.is_empty());
}

#[test]
fn fast_blur_needs_the_row_below_only_as_far_as_it_reads() {
    let mut buffer: Vec<u32> = (0..13u32).map(|i| i * 0x050607 + 0x0A).collect();
    let before = buffer.clone();
    fast_blur(&mut buffer, 0, 0, 2, 1, 10);
    assert_eq!(buffer.len(), 13);
    assert_eq!(buffer[0], 0xFF1B2130);
    assert_eq!(buffer[1], 0xFF22293A);
    for i in 2..13 {
        assert_eq!(buffer[i], before[i]);
    }
}

#[test]
fn fast_blur_of_one_colour_keeps_it() {
    let mut buffer: Vec<u32> = (0..20u32).map(|i| 0x00123456 | (i << 24)).collect();
    let before = buffer.clone();
    fast_blur(&mut buffer, 1, 0, 4, 3, 5);
    for y in 0..4 {
        for x in 0..5 {
            let i = y * 5 + x;
            if (1..4).contains(&x) && y < 3 {
                assert_eq!(buffer[i], 0xFF123456);
            } else {
                assert_eq!(buffer[i], before[i]);
            }
        }
    }
    let once = buffer.clone();
    fast_blur(&mut buffer, 1, 0, 4, 3, 5);
    assert_eq!(buffer, once);
}

#[test]
fn fast_blur_stays_between_the_least_and_the_greatest_byte() {
    let mut buffer: Vec<u32> =
        (0..24u32).map(|i| 0x40 + (i * 7) % 0x30 + (((i * 5) % 0x20 + 0x10) << 8) + (0x80 << 16)).collect();
    fast_blur(&mut buffer, 0, 0, 6, 3, 6);
    for (i, p) in buffer.iter().enumerate() {
        let (r, g, b) = (p & 0xFF, (p >> 8) & 0xFF, (p >> 16) & 0xFF);
        assert!((0x40..0x70).contains(&r));
        assert!((0x10..0x30).contains(&g));
        assert_eq!(b, 0x80);
        if i < 18 {
            assert_eq!(p >> 24, 0xFF);
        }
    }
}
