use range_coder::{update_cdf, Reader, Writer};

#[test]
fn booleans() {
    let mut w = Writer::new();

    w.bool(false, 1);
    w.bool(true, 2);
    w.bool(false, 3);
    w.bool(true, 1);
    w.bool(true, 2);
    w.bool(false, 3);

    let b = w.done();

    let mut r = Reader::new(&b);

    assert_eq!(r.bool(1), false);
    assert_eq!(r.bool(2), true);
    assert_eq!(r.bool(3), false);
    assert_eq!(r.bool(1), true);
    assert_eq!(r.bool(2), true);
    assert_eq!(r.bool(3), false);
}

#[test]
fn cdf() {
    let cdf = [7296, 3819, 1716, 0, 0];

    let mut w = Writer::new();

    w.cdf(0, &cdf);
    w.cdf(0, &cdf);
    w.cdf(0, &cdf);
    w.cdf(1, &cdf);
    w.cdf(1, &cdf);
    w.cdf(1, &cdf);
    w.cdf(2, &cdf);
    w.cdf(2, &cdf);
    w.cdf(2, &cdf);

    let b = w.done();

    let mut r = Reader::new(&b);

    assert_eq!(r.cdf(&cdf), 0);
    assert_eq!(r.cdf(&cdf), 0);
    assert_eq!(r.cdf(&cdf), 0);
    assert_eq!(r.cdf(&cdf), 1);
    assert_eq!(r.cdf(&cdf), 1);
    assert_eq!(r.cdf(&cdf), 1);
    assert_eq!(r.cdf(&cdf), 2);
    assert_eq!(r.cdf(&cdf), 2);
    assert_eq!(r.cdf(&cdf), 2);
}

#[test]
fn mixed() {
    let cdf = [7296, 3819, 1716, 0, 0];

    let mut w = Writer::new();

    w.cdf(0, &cdf);
    w.bool(true, 2);
    w.cdf(0, &cdf);
    w.bool(true, 2);
    w.cdf(0, &cdf);
    w.bool(true, 2);
    w.cdf(1, &cdf);
    w.bool(true, 1);
    w.cdf(1, &cdf);
    w.bool(false, 2);
    w.cdf(1, &cdf);
    w.cdf(2, &cdf);
    w.cdf(2, &cdf);
    w.cdf(2, &cdf);

    let b = w.done();

    let mut r = Reader::new(&b);

    assert_eq!(r.cdf(&cdf), 0);
    assert_eq!(r.bool(2), true);
    assert_eq!(r.cdf(&cdf), 0);
    assert_eq!(r.bool(2), true);
    assert_eq!(r.cdf(&cdf), 0);
    assert_eq!(r.bool(2), true);
    assert_eq!(r.cdf(&cdf), 1);
    assert_eq!(r.bool(1), true);
    assert_eq!(r.cdf(&cdf), 1);
    assert_eq!(r.bool(2), false);
    assert_eq!(r.cdf(&cdf), 1);
    assert_eq!(r.cdf(&cdf), 2);
    assert_eq!(r.cdf(&cdf), 2);
    assert_eq!(r.cdf(&cdf), 2);
}

// Any sequence of (value, probability) pairs survives the round trip,
// probability extremes included.
#[test]
fn bit_round_trip_varied_probabilities() {
    let mut vals: Vec<bool> = Vec::new();
    let mut fs: Vec<u16> = Vec::new();
    for i in 0u32..300 {
        vals.push((i * 7) % 3 == 0);
        fs.push((1 + (i * 2459) % 32767) as u16);
    }
    vals.push(true);
    fs.push(1);
    vals.push(false);
    fs.push(1);
    vals.push(true);
    fs.push(32767);
    vals.push(false);
    fs.push(32767);

    let mut w = Writer::new();
    for i in 0..vals.len() {
        w.bool(vals[i], fs[i]);
    }
    let b = w.done();

    let mut r = Reader::new(&b);
    for i in 0..vals.len() {
        assert_eq!(r.bool(fs[i]), vals[i]);
    }
}

// Adaptive symbols: identical initial tables on both sides reproduce every
// symbol and end bit-for-bit identical.
#[test]
fn adaptive_symbol_round_trip() {
    let symbols: [u32; 24] = [0, 1, 2, 3, 0, 0, 2, 1, 3, 3, 3, 0, 1, 1, 1, 2, 0, 3, 2, 1, 0, 0, 1, 2];
    let mut enc_cdf: Vec<u16> = vec![7296, 3819, 1716, 0, 0];
    let mut dec_cdf: Vec<u16> = vec![7296, 3819, 1716, 0, 0];

    let mut w = Writer::new();
    for &s in symbols.iter() {
        w.symbol(s, &mut enc_cdf, 4);
    }
    let b = w.done();

    let mut r = Reader::new(&b);
    for &s in symbols.iter() {
        assert_eq!(r.symbol(&mut dec_cdf, 4), s as usize);
    }
    assert_eq!(enc_cdf, dec_cdf);
}

// Interleaving bit, fixed-table and adaptive calls in one stream and
// decoding in the same order reproduces the exact sequence.
#[test]
fn mixed_adaptive_round_trip() {
    let fixed = [7296, 3819, 1716, 0, 0];
    let mut enc_cdf: Vec<u16> = vec![24000, 12000, 0, 0];
    let mut dec_cdf: Vec<u16> = vec![24000, 12000, 0, 0];

    let mut w = Writer::new();
    w.bool(true, 100);
    w.symbol(2, &mut enc_cdf, 3);
    w.cdf(1, &fixed);
    w.bool(false, 30000);
    w.symbol(0, &mut enc_cdf, 3);
    w.symbol(1, &mut enc_cdf, 3);
    w.cdf(3, &fixed);
    w.bool(true, 16384);
    let b = w.done();

    let mut r = Reader::new(&b);
    assert_eq!(r.bool(100), true);
    assert_eq!(r.symbol(&mut dec_cdf, 3), 2);
    assert_eq!(r.cdf(&fixed), 1);
    assert_eq!(r.bool(30000), false);
    assert_eq!(r.symbol(&mut dec_cdf, 3), 0);
    assert_eq!(r.symbol(&mut dec_cdf, 3), 1);
    assert_eq!(r.cdf(&fixed), 3);
    assert_eq!(r.bool(16384), true);
    assert_eq!(enc_cdf, dec_cdf);
}

// One adaptive update, checked value for value against the rule: rate is
// 4 + floor(log2 4) = 6, diff is 32640, and each entry moves toward its
// target by the gap shifted right 6 with arithmetic rounding.
#[test]
fn update_cdf_exact_values() {
    let mut cdf: Vec<u16> = vec![7296, 3819, 1716, 0, 0];
    update_cdf(&mut cdf, 0, 4);
    assert_eq!(cdf, vec![7183, 3760, 1689, 0, 1]);
}

// The adaptive update keeps the inverted table strictly decreasing with its
// terminal entry pinned, and the usage counter climbs to its ceiling of 32
// and stays there.
#[test]
fn update_cdf_keeps_shape_and_caps_counter() {
    let mut cdf: Vec<u16> = vec![7296, 3819, 1716, 0, 0];
    for round in 0u32..40 {
        update_cdf(&mut cdf, round % 4, 4);
        assert!(cdf[0] > cdf[1] && cdf[1] > cdf[2] && cdf[2] > cdf[3]);
        assert_eq!(cdf[3], 0);
        assert!(cdf[4] <= 32);
    }
    assert_eq!(cdf[4], 32);
}

// One equiprobable true bit: the interval narrows to [0x8000, 0x10000) at
// scale 2^16, one renormalization doubles it, and the flush emits the single
// byte 0x80.
#[test]
fn exact_bytes_single_bool() {
    let mut w = Writer::new();
    w.bool(true, 16384);
    let b = w.done();
    assert_eq!(b, vec![0x80]);
}

// An empty symbol sequence finalizes to the minimal output: no bytes.
#[test]
fn empty_stream() {
    let mut w = Writer::new();
    let b = w.done();
    assert_eq!(b.len(), 0);

    // decoding from nothing synthesizes zero bits deterministically
    let mut r = Reader::new(&b);
    assert_eq!(r.bool(16384), false);
    assert!(r.overread());
}

// Finalized output length never shrinks as more symbols are appended.
#[test]
fn length_monotonicity() {
    let mut prev_len = 0usize;
    for k in 0..40 {
        let mut w = Writer::new();
        for i in 0u32..k {
            w.bool((i * 5) % 7 < 3, (1 + (i * 9973) % 32767) as u16);
        }
        let len = w.done().len();
        assert!(len >= prev_len);
        prev_len = len;
    }
}

// Decoding past the declared end keeps producing deterministic values and
// raises the overread flag that the caller can query.
#[test]
fn overread_query() {
    let mut w = Writer::new();
    w.bool(true, 16384);
    let b = w.done();

    let mut r = Reader::new(&b);
    assert_eq!(r.bool(16384), true);
    for _ in 0..20 {
        r.bool(16384);
    }
    assert!(r.overread());
}

// A one-symbol adaptive table codes nothing, decodes to the only symbol,
// and only its usage counter moves.
#[test]
fn single_symbol_table() {
    let mut enc_cdf: Vec<u16> = vec![0, 0];
    let mut dec_cdf: Vec<u16> = vec![0, 0];

    let mut w = Writer::new();
    w.bool(true, 9000);
    w.symbol(0, &mut enc_cdf, 1);
    w.bool(false, 9000);
    let b = w.done();

    let mut r = Reader::new(&b);
    assert_eq!(r.bool(9000), true);
    assert_eq!(r.symbol(&mut dec_cdf, 1), 0);
    assert_eq!(r.bool(9000), false);
    assert_eq!(enc_cdf, vec![0, 1]);
    assert_eq!(enc_cdf, dec_cdf);
}

// The largest admitted table shape: 16 symbols.
#[test]
fn sixteen_symbol_table_round_trip() {
    let mut base: Vec<u16> = Vec::new();
    for i in 0..16 {
        base.push(32768 - (i as u16 + 1) * 2048);
    }
    base.push(0); // usage counter
    let mut enc_cdf = base.clone();
    let mut dec_cdf = base.clone();

    let symbols: [u32; 20] = [15, 0, 7, 8, 3, 12, 1, 14, 9, 2, 5, 11, 6, 13, 4, 10, 0, 15, 7, 8];
    let mut w = Writer::new();
    for &s in symbols.iter() {
        w.symbol(s, &mut enc_cdf, 16);
    }
    let b = w.done();

    let mut r = Reader::new(&b);
    for &s in symbols.iter() {
        assert_eq!(r.symbol(&mut dec_cdf, 16), s as usize);
    }
    assert_eq!(enc_cdf, dec_cdf);
}
