use dedup::distance::distance;
use dedup::fingerprint::{parse_line, parse_list, LineError, ParseError};
use dedup::partition::ranges;
use dedup::refine::confirms;
use dedup::rename::{file_extension, file_stem, merged_name};
use dedup::resolve::{keeper, key_less, order, path_components, path_dirs, sort_key, Member};
use dedup::search::{is_excluded, zeroed, Search};
use dedup::stream::{discards, split_groups, split_lines};
use dedup::threshold::threshold;

fn hex(p: &[u8]) -> String {
    p.iter().map(|b| format!("{:02x}", b)).collect()
}

fn line(p: &[u8], name: &str) -> Vec<u8> {
    format!("{} {}", hex(p), name).into_bytes()
}

fn print_with(first: u8) -> Vec<u8> {
    let mut p = vec![0x5a; 32];
    p[0] = first;
    p
}

fn members(ps: &[(&str, u64)]) -> Vec<Member> {
    ps.iter().map(|(p, r)| Member { path: p.as_bytes().to_vec(), res: *r }).collect()
}

#[test]
fn distance_counts_differing_bits() {
    let a = vec![0u8; 32];
    let mut b = vec![0u8; 32];
    b[3] = 0b1011_0000;
    b[31] = 0xff;
    assert_eq!(distance(&a, &b), 11);
    assert_eq!(distance(&b, &a), 11);
    assert_eq!(distance(&b, &b), 0);
    assert_eq!(distance(&vec![0u8; 32], &vec![0xffu8; 32]), 256);
}

#[test]
fn threshold_values() {
    assert_eq!(threshold(100), 0);
    assert_eq!(threshold(99), 3);
    assert_eq!(threshold(88), 31);
    assert_eq!(threshold(1), 253);
    assert_eq!(threshold(0), 256);
    let mut last = threshold(1);
    for p in 2..=100 {
        let t = threshold(p);
        assert!(t <= last);
        last = t;
    }
}

#[test]
fn parse_line_reads_hash_and_path() {
    let mut p = vec![0u8; 32];
    p[0] = 0xab;
    p[31] = 0x0F;
    let l = format!("{}\t  some dir/img 1.png", hex(&p).to_uppercase()).into_bytes();
    let (print, name) = parse_line(&l).unwrap();
    assert_eq!(print, p);
    assert_eq!(name, b"some dir/img 1.png".to_vec());
}

#[test]
fn parse_line_remaps_zero_hash() {
    let l = line(&[0u8; 32], "z.png");
    let (print, _) = parse_line(&l).unwrap();
    let mut want = vec![0u8; 32];
    want[0] = 1;
    assert_eq!(print, want);
    assert!(!is_excluded(&print));
}

#[test]
fn parse_line_errors() {
    assert_eq!(parse_line(&b"abcdef".to_vec()), Err(LineError::NoSeparator));
    assert_eq!(parse_line(&Vec::new()), Err(LineError::NoSeparator));
    assert_eq!(parse_line(&b"abcd x.png".to_vec()), Err(LineError::BadHash));
    let mut bad = line(&[7u8; 32], "x.png");
    bad[5] = b'g';
    assert_eq!(parse_line(&bad), Err(LineError::BadHash));
    let long = format!("{}00 x.png", hex(&[7u8; 32])).into_bytes();
    assert_eq!(parse_line(&long), Err(LineError::BadHash));
}

#[test]
fn parse_list_reports_first_bad_line() {
    let ls = vec![line(&[1u8; 32], "a"), b"nonsense".to_vec(), b"zz y".to_vec()];
    match parse_list(&ls) {
        Err(e) => assert_eq!(e, ParseError { line: 1, kind: LineError::NoSeparator }),
        Ok(_) => panic!("accepted a bad list"),
    }
    let ok = parse_list(&vec![line(&[1u8; 32], "a"), line(&[2u8; 32], "b")]).unwrap();
    assert_eq!(ok.prints, vec![vec![1u8; 32], vec![2u8; 32]]);
    assert_eq!(ok.names, vec![b"a".to_vec(), b"b".to_vec()]);
}

#[test]
fn one_bit_apart_at_full_and_near_full_similarity() {
    let a = print_with(0x10);
    let b = print_with(0x11);
    let mut s = Search::new_self(vec![a.clone(), b.clone()], 100);
    assert!(s.run().is_empty());
    let mut s = Search::new_self(vec![a, b], 99);
    let g = s.run();
    assert_eq!(g.len(), 1);
    assert_eq!(g[0].base, 0);
    assert_eq!(g[0].members, vec![1]);
}

#[test]
fn identical_first_and_third_entries() {
    let one = print_with(0x33);
    let mut two = one.clone();
    for b in two.iter_mut().take(16) {
        *b ^= 0xff;
    }
    two[16] ^= 0x03;
    assert_eq!(distance(&one, &two), 130);
    let mut s = Search::new_self(vec![one.clone(), two, one], 88);
    let g = s.run();
    assert_eq!(g.len(), 1);
    assert_eq!(g[0].base, 0);
    assert_eq!(g[0].members, vec![2]);
    assert!(s.finished());
}

#[test]
fn self_mode_claims_once() {
    let p = print_with(0x44);
    let mut s = Search::new_self(vec![p.clone(), p.clone(), p.clone(), p], 90);
    let g = s.run();
    assert_eq!(g.len(), 1);
    assert_eq!(g[0].base, 0);
    assert_eq!(g[0].members, vec![1, 2, 3]);
}

#[test]
fn cross_mode_never_claims_bases() {
    let p = print_with(0x44);
    let q = vec![0xa5u8; 32];
    let mut s = Search::new_cross(vec![p.clone(), p.clone()], vec![q.clone(), p.clone(), p], 95);
    let g = s.run();
    assert_eq!(g.len(), 1);
    assert_eq!(g[0].base, 0);
    assert_eq!(g[0].members, vec![1, 2]);
}

#[test]
fn refined_step_claims_confirmed_only() {
    let p = print_with(0x44);
    let mut s = Search::new_self(vec![p.clone(), p.clone(), p.clone()], 95);
    assert_eq!(s.next_base(), 0);
    let c = s.candidates();
    assert_eq!(c, vec![1, 2]);
    let m = s.advance(&vec![false, true]);
    assert_eq!(m, vec![2]);
    assert_eq!(s.next_base(), 1);
    assert_eq!(s.candidates(), Vec::<usize>::new());
    assert_eq!(s.advance(&Vec::new()), Vec::<usize>::new());
    assert_eq!(s.next_base(), 2);
    assert_eq!(s.candidates(), Vec::<usize>::new());
    s.advance(&Vec::new());
    assert!(s.finished());
}

#[test]
fn zeroed_is_excluded() {
    let z = zeroed();
    assert_eq!(z, vec![0u8; 32]);
    assert!(is_excluded(&z));
    assert!(!is_excluded(&print_with(0)));
}

#[test]
fn confirms_by_standard_deviation() {
    assert!(!confirms(&Vec::new(), 100));
    assert!(confirms(&vec![7u8; 16], 100));
    // values 0 and 4: standard deviation 2
    let m = vec![0u8, 4, 0, 4];
    assert!(!confirms(&m, 100));
    assert!(!confirms(&vec![0u8, 2, 0, 2], 100));
    assert!(confirms(&vec![0u8, 1, 1, 1], 100));
    assert!(confirms(&m, 99));
    let wide = vec![0u8, 255, 0, 255];
    assert!(!confirms(&wide, 90));
    assert!(confirms(&wide, 87));
}

#[test]
fn size_first_keeps_larger_depth_first_keeps_shallower() {
    let g = members(&[("a/b/img1.png", 100 * 100), ("a/b/c/img2.png", 200 * 200)]);
    assert_eq!(keeper(&g, false), 1);
    assert_eq!(keeper(&g, true), 0);
    assert_eq!(discards(&g, 1), vec![b"a/b/img1.png".to_vec()]);
    assert_eq!(discards(&g, 0), vec![b"a/b/c/img2.png".to_vec()]);
}

#[test]
fn keeper_ignores_line_order() {
    let ps = [("x/b/q.png", 50), ("x/a/r.png", 50), ("x/a/p.png", 50), ("y.png", 10)];
    let g1 = members(&ps);
    let mut rev = ps;
    rev.reverse();
    let g2 = members(&rev);
    let k1 = keeper(&g1, false);
    let k2 = keeper(&g2, false);
    assert_eq!(g1[k1].path, b"x/a/p.png".to_vec());
    assert_eq!(g1[k1].path, g2[k2].path);
    let d1 = keeper(&g1, true);
    let d2 = keeper(&g2, true);
    assert_eq!(g1[d1].path, b"y.png".to_vec());
    assert_eq!(g2[d2].path, b"y.png".to_vec());
}

#[test]
fn directory_order() {
    assert_eq!(
        path_components(&b"/a//b/c.png".to_vec()),
        vec![b"a".to_vec(), b"b".to_vec(), b"c.png".to_vec()]
    );
    assert_eq!(path_dirs(&b"a/b/c.png".to_vec()), vec![Vec::new(), b"a".to_vec(), b"b".to_vec()]);
    assert_eq!(path_dirs(&b"/c.png".to_vec()), vec![b"/".to_vec()]);
    let k = |p: &str| sort_key(&p.as_bytes().to_vec(), 0, true);
    assert!(key_less(&k("a/b/x.png"), &k("a/c/x.png")));
    assert!(key_less(&k("a/x.png"), &k("a/b/x.png")));
    assert!(key_less(&k("a/b/x.png"), &k("a/bc/x.png")));
    assert!(key_less(&k("b/x.png"), &k("/a/x.png")));
    assert!(!key_less(&k("a/x.png"), &k("a/x.png")));
}

#[test]
fn merged_name_joins_stems() {
    let d = vec![b"x".to_vec(), b"y".to_vec()];
    assert_eq!(merged_name(&b"photo.jpg".to_vec(), &d), Some(b"photo_xy.jpg".to_vec()));
    let d = vec![b"a/x.png".to_vec(), b"../y.tar.gz".to_vec()];
    assert_eq!(merged_name(&b"/p/q/photo.jpg".to_vec(), &d), Some(b"/p/q/photo_xy.tar.jpg".to_vec()));
    assert_eq!(merged_name(&b"photo".to_vec(), &d), None);
    assert_eq!(merged_name(&b"photo.jpg".to_vec(), &vec![b"dir/".to_vec()]), None);
}

#[test]
fn merged_name_is_cut_to_length() {
    let long: Vec<Vec<u8>> = (0..30).map(|i| format!("discard{:03}", i).into_bytes()).collect();
    let m = merged_name(&b"k.png".to_vec(), &long).unwrap();
    assert_eq!(m.len(), 244 + 4);
    assert!(m.starts_with(b"k_discard000discard001"));
    assert!(m.ends_with(b".png"));
    let wide = vec!["é".repeat(200).into_bytes()];
    let m = merged_name(&b"k.png".to_vec(), &wide).unwrap();
    assert!(String::from_utf8(m.clone()).is_ok());
    assert_eq!(m.len(), 244 + 4);
    let m = merged_name(&b"k.pn".to_vec(), &wide).unwrap();
    assert!(String::from_utf8(m.clone()).is_ok());
    assert_eq!(m.len(), 246 + 3);
}

#[test]
fn stem_and_extension() {
    assert_eq!(file_stem(&b"a/b.c.d".to_vec()), Some(b"b.c".to_vec()));
    assert_eq!(file_extension(&b"a/b.c.d".to_vec()), Some(b"d".to_vec()));
    assert_eq!(file_stem(&b".hidden".to_vec()), Some(b".hidden".to_vec()));
    assert_eq!(file_extension(&b".hidden".to_vec()), None);
    assert_eq!(file_extension(&b"x/..".to_vec()), None);
    assert_eq!(file_stem(&b"x/".to_vec()), None);
}

#[test]
fn lines_and_groups() {
    let t = b"a.png\r\nb.png\n\nc.png\nd.png\n\n\ne.png\n".to_vec();
    let ls = split_lines(&t);
    assert_eq!(ls.len(), 8);
    assert_eq!(ls[0], b"a.png".to_vec());
    assert_eq!(ls[2], Vec::<u8>::new());
    let g = split_groups(&ls);
    assert_eq!(g.len(), 2);
    assert_eq!(g[0], vec![b"a.png".to_vec(), b"b.png".to_vec()]);
    assert_eq!(g[1], vec![b"c.png".to_vec(), b"d.png".to_vec()]);
    assert_eq!(split_lines(&b"x".to_vec()), vec![b"x".to_vec()]);
    assert_eq!(split_lines(&Vec::new()), Vec::<Vec<u8>>::new());
}

#[test]
fn order_puts_keeper_last() {
    let ps = [("x/b/q.png", 50), ("x/a/r.png", 50), ("y.png", 10), ("x/a/p.png", 50)];
    let paths = |g: &Vec<Member>| g.iter().map(|m| String::from_utf8(m.path.clone()).unwrap()).collect::<Vec<_>>();
    let g = members(&ps);
    assert_eq!(paths(&order(&g, false)), vec!["y.png", "x/b/q.png", "x/a/r.png", "x/a/p.png"]);
    assert_eq!(paths(&order(&g, true)), vec!["x/b/q.png", "x/a/r.png", "x/a/p.png", "y.png"]);
    let mut rev = ps;
    rev.reverse();
    assert_eq!(paths(&order(&members(&rev), false)), paths(&order(&g, false)));
    let sorted = order(&members(&[("dir/photo.jpg", 900), ("y.png", 10), ("x.png", 10)]), false);
    let d = discards(&sorted, 2);
    assert_eq!(d, vec![b"y.png".to_vec(), b"x.png".to_vec()]);
    assert_eq!(merged_name(&sorted[2].path, &d), Some(b"dir/photo_yx.jpg".to_vec()));
    assert!(order(&Vec::new(), false).is_empty());
}

#[test]
fn ranges_cover_the_scan() {
    assert_eq!(ranges(3, 3, 4), Vec::<(usize, usize)>::new());
    assert_eq!(ranges(0, 5, 8), vec![(0, 1), (1, 2), (2, 3), (3, 4), (4, 5)]);
    assert_eq!(ranges(10, 60, 2), vec![(10, 16), (16, 22), (22, 28), (28, 34), (34, 40), (40, 46), (46, 52), (52, 58), (58, 60)]);
    let r = ranges(1, 1000, 3);
    assert_eq!(r[0], (1, 84));
    assert_eq!(r.last().unwrap().1, 1000);
    assert!(r.windows(2).all(|w| w[0].1 == w[1].0));
}
