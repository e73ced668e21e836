use huskarl_route_guard::percent::{
    byte_at, fullwidth_at, hex_val, interpretations, overlong_at,
};

#[test]
fn bounded_interpretations_preserve_source_offsets_and_invalid_bytes() {
    let path = b"/ab%25%32%66%FF";
    let mut views = Vec::new();
    for view in interpretations(path, true) {
        views.push((
            view.bytes.to_vec(),
            (0..view.bytes.len())
                .map(|i| view.source_offset(i))
                .collect::<Vec<_>>(),
        ));
    }
    assert_eq!(views.len(), 3);
    assert_eq!(
        views[1],
        (b"/ab%2f\xff".to_vec(), vec![0, 1, 2, 3, 6, 9, 12])
    );
    assert_eq!(views[2], (b"/ab/\xff".to_vec(), vec![0, 1, 2, 3, 12]));
    assert_eq!(interpretations(path, false).len(), 2);
}

#[test]
fn decoding_stops_at_a_fixed_point() {
    for path in [b"/plain".as_slice(), b"/%", b"/%2", b"/%GG"] {
        let views = interpretations(path, true);
        for view in &views {
            assert_eq!(view.bytes.as_slice(), path);
            assert!(view.is_original());
        }
        assert_eq!(views.len(), 1);
    }
}

#[test]
fn hex_val_decodes_both_cases() {
    assert_eq!(hex_val(b'0'), Some(0));
    assert_eq!(hex_val(b'9'), Some(9));
    assert_eq!(hex_val(b'a'), Some(10));
    assert_eq!(hex_val(b'F'), Some(15));
    assert_eq!(hex_val(b'g'), None);
    assert_eq!(hex_val(b'%'), None);
}

#[test]
fn byte_at_decodes_complete_escapes() {
    assert_eq!(byte_at(b"%2f", 0), Some(b'/'));
    assert_eq!(byte_at(b"%2F", 0), Some(b'/'));
    assert_eq!(byte_at(b"a%2eb", 1), Some(b'.'));
    assert_eq!(byte_at(b"%00", 0), Some(0));
    // not a `%`, or truncated/invalid escape
    assert_eq!(byte_at(b"abc", 0), None);
    assert_eq!(byte_at(b"%2", 0), None);
    assert_eq!(byte_at(b"%2g", 0), None);
}

#[test]
fn overlong_at_decodes_2_3_4_byte_forms() {
    assert_eq!(overlong_at(b"\xc0\xaf", 0), Some((b'/', 2)));
    assert_eq!(overlong_at(b"\xc0\xae", 0), Some((b'.', 2)));
    assert_eq!(overlong_at(b"\xe0\x80\xaf", 0), Some((b'/', 3)));
    assert_eq!(overlong_at(b"\xf0\x80\x80\xaf", 0), Some((b'/', 4)));
    // ordinary single-byte escape is not overlong
    assert_eq!(overlong_at(b"%2f", 0), None);
    // non-target overlong (overlong 'A') is ignored
    assert_eq!(overlong_at(b"\xc1\x81", 0), None);
    // truncated continuation
    assert_eq!(overlong_at(b"\xc0", 0), None);
}

#[test]
fn fullwidth_at_recognizes_structural_bytes() {
    // Raw UTF-8 fullwidth forms (3 bytes each).
    assert_eq!(fullwidth_at("／".as_bytes(), 0), Some((b'/', 3)));
    assert_eq!(fullwidth_at("．".as_bytes(), 0), Some((b'.', 3)));
    assert_eq!(fullwidth_at("；".as_bytes(), 0), Some((b';', 3)));
    assert_eq!(fullwidth_at("＼".as_bytes(), 0), Some((b'\\', 3)));
    // A fullwidth *letter* (U+FF21 `Ａ`) is not a structural confusable.
    assert_eq!(fullwidth_at("Ａ".as_bytes(), 0), None);
    // Ordinary input.
    assert_eq!(fullwidth_at(b"abc", 0), None);
    assert_eq!(fullwidth_at(b"%2f", 0), None);
}
