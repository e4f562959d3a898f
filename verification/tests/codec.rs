use tensorcode::codegen::{generate, generate_rev};
use tensorcode::codespec::CodeSpec;
use tensorcode::encode::{codeword_length, encode, test_reverse_encoding};
use tensorcode::field::{Field, Ft32};

fn zeros(n: usize) -> Vec<Ft32> {
    let mut v = Vec::new();
    for _ in 0..n {
        v.push(Ft32::zero());
    }
    v
}

#[test]
fn generate_is_deterministic() {
    let cs = CodeSpec::code6();
    let (pre_a, post_a) = generate::<Ft32>(100, 17, cs).unwrap();
    let (pre_b, post_b) = generate::<Ft32>(100, 17, cs).unwrap();
    assert_eq!(pre_a.len(), pre_b.len());
    assert_eq!(post_a.len(), post_b.len());
    for (a, b) in pre_a.iter().zip(pre_b.iter()).chain(post_a.iter().zip(post_b.iter())) {
        assert_eq!(a.rows, b.rows);
        assert_eq!(a.cols, b.cols);
        assert_eq!(a.indptr, b.indptr);
        assert_eq!(a.indices, b.indices);
        assert_eq!(a.vals, b.vals);
    }
}

#[test]
fn generate_differs_for_different_seeds() {
    let cs = CodeSpec::code6();
    let (pre_a, _) = generate::<Ft32>(100, 0, cs).unwrap();
    let (pre_b, _) = generate::<Ft32>(100, 1, cs).unwrap();
    let mut same = true;
    for (a, b) in pre_a.iter().zip(pre_b.iter()) {
        if a.indices != b.indices || a.vals != b.vals {
            same = false;
        }
    }
    assert!(!same);
}

#[test]
fn generate_rejects_short_messages() {
    let cs = CodeSpec::code6();
    // the base-case length is 20: no recursion level fits below it
    assert!(generate::<Ft32>(20, 0, cs).is_none());
    assert!(generate::<Ft32>(5, 0, cs).is_none());
    assert!(generate::<Ft32>(21, 0, cs).is_some());
}

#[test]
fn codeword_length_matches_rate() {
    let cs = CodeSpec::code6();
    for (msg_len, expect) in [(100usize, 172usize), (30, 52), (1024, 1762)] {
        let (pre, post) = generate::<Ft32>(msg_len, 0, cs).unwrap();
        assert_eq!(codeword_length(&pre, &post), expect);
    }
}

#[test]
fn encode_fills_buffer_and_is_systematic() {
    let cs = CodeSpec::code6();
    let (pre, post) = generate::<Ft32>(30, 3, cs).unwrap();
    let n = codeword_length(&pre, &post);
    assert_eq!(n, 52);
    let mut buf = zeros(n);
    for i in 0..30 {
        buf[i] = Ft32::from_word(1000 + i as u64);
    }
    encode(&mut buf, &pre, &post);
    assert_eq!(buf.len(), n);
    // the codeword starts with the message itself
    for i in 0..30 {
        assert_eq!(buf[i], Ft32::from_word(1000 + i as u64));
    }
    // the rest of the codeword is populated (not all zero)
    let tail_nonzero = (30..n).any(|i| buf[i] != Ft32::zero());
    assert!(tail_nonzero);
}

#[test]
fn encode_is_linear() {
    let cs = CodeSpec::code6();
    let (pre, post) = generate::<Ft32>(30, 5, cs).unwrap();
    let n = codeword_length(&pre, &post);
    let c = Ft32::from_word(987654321);
    let mut x = zeros(n);
    let mut y = zeros(n);
    let mut xcy = zeros(n);
    for i in 0..30 {
        let xi = Ft32::from_word(7 + 31 * i as u64);
        let yi = Ft32::from_word(1 + 97 * i as u64 * i as u64);
        x[i] = xi;
        y[i] = yi;
        xcy[i] = xi.add(c.mul(yi));
    }
    encode(&mut x, &pre, &post);
    encode(&mut y, &pre, &post);
    encode(&mut xcy, &pre, &post);
    for i in 0..n {
        assert_eq!(xcy[i], x[i].add(c.mul(y[i])));
    }
}

#[test]
fn reverse_chain_matches_forward_transpose() {
    let cs = CodeSpec::code6();
    let (pre, post) = generate::<Ft32>(30, 0, cs).unwrap();
    let (pre_t, post_t) = generate_rev::<Ft32>(52, 0, cs).unwrap();
    assert!(test_reverse_encoding::<Ft32>(30, 52, &pre, &post, &pre_t, &post_t));
}

#[test]
fn generate_rev_recovers_message_length() {
    let cs = CodeSpec::code6();
    let (pre_t, post_t) = generate_rev::<Ft32>(172, 0, cs).unwrap();
    // the outermost reverse precode is the transpose of a (rows x 100) matrix
    assert_eq!(pre_t[0].rows, 100);
    assert_eq!(pre_t.len(), post_t.len());
}

#[test]
fn sparse_rows_hold_distinct_sorted_columns() {
    let cs = CodeSpec::code6();
    let (pre, post) = generate::<Ft32>(100, 9, cs).unwrap();
    for (matrices, density) in [(&pre, 7usize), (&post, 10usize)] {
        for m in matrices.iter() {
            assert_eq!(m.indptr.len(), m.rows + 1);
            assert_eq!(m.indptr[0], 0);
            assert_eq!(*m.indptr.last().unwrap(), m.indices.len());
            for i in 0..m.rows {
                let (s, e) = (m.indptr[i], m.indptr[i + 1]);
                // every row holds exactly the chosen number of entries,
                // at distinct increasing columns, with nonzero values
                assert_eq!(e - s, density.min(m.cols));
                for k in s..e {
                    assert!(m.indices[k] < m.cols);
                    if k + 1 < e {
                        assert!(m.indices[k] < m.indices[k + 1]);
                    }
                    assert!(m.vals[k] != Ft32::zero());
                }
            }
        }
    }
}
