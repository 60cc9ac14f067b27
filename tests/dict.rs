use float_ord::FloatOrd;
use ordbog::{Code, Dict, Mode};

/// A float wrapped for a total order, with default 1.0.
#[derive(Clone, PartialEq, Eq, PartialOrd, Ord, Debug)]
struct Float(FloatOrd<f64>);

impl Default for Float {
    fn default() -> Self {
        Float(FloatOrd(1.0))
    }
}

struct Lcg(u64);

impl Lcg {
    fn next(&mut self) -> u64 {
        self.0 = self
            .0
            .wrapping_mul(6364136223846793005)
            .wrapping_add(1442695040888963407);
        self.0 >> 11
    }
    fn unit(&mut self) -> f64 {
        (self.next() as f64 + 0.5) / ((1u64 << 53) as f64)
    }
    fn normal(&mut self) -> f64 {
        let u1 = self.unit();
        let u2 = self.unit();
        (-2.0 * u1.ln()).sqrt() * (2.0 * std::f64::consts::PI * u2).cos()
    }
}

fn check_pair<T: Ord + Clone + Default>(d: &Dict<T>, a: &T, b: &T) {
    let c0 = d.encode(a);
    let c1 = d.encode(b);
    assert!(c0.0 >= 1 && c0 <= d.mode.max_inexact_code());
    assert!(c1.0 >= 1 && c1 <= d.mode.max_inexact_code());
    if c0 < c1 {
        assert!(*a < *b);
    }
    if *a == *b {
        assert!(c0 == c1);
    }
    if *a < *b {
        assert!(c0 <= c1);
        if c0.is_exact() || c1.is_exact() {
            assert!(c0 < c1);
        }
    }
}

fn check_structure<T: Ord + Clone + Default>(d: &Dict<T>) {
    assert!(d.codes.len() >= 1);
    assert!(d.codes.len() <= d.mode.num_exact_codes());
    for w in d.codes.windows(2) {
        assert!(w[0] < w[1]);
    }
}

#[test]
fn code_is_exact_on_even_codes() {
    assert!(Code(2).is_exact());
    assert!(Code(0xfffe).is_exact());
    assert!(!Code(1).is_exact());
    assert!(!Code(0xff).is_exact());
}

#[test]
fn mode_constants() {
    assert_eq!(Mode::Byte.num_exact_codes(), 127);
    assert_eq!(Mode::Word.num_exact_codes(), 32767);
    assert_eq!(Mode::Byte.max_exact_code(), Code(0xfe));
    assert_eq!(Mode::Word.max_exact_code(), Code(0xfffe));
    assert_eq!(Mode::Byte.max_inexact_code(), Code(0xff));
    assert_eq!(Mode::Word.max_inexact_code(), Code(0xffff));
}

#[test]
fn empty_sample_codes_default() {
    let d: Dict<i32> = Dict::new(Mode::Byte, vec![]);
    assert_eq!(d.codes, vec![0]);
    assert_eq!(d.encode(&-5), Code(1));
    assert_eq!(d.encode(&0), Code(2));
    assert_eq!(d.encode(&7), Code(3));
}

#[test]
fn repeated_value_is_one_code() {
    let d: Dict<i32> = Dict::new(Mode::Byte, vec![5, 5, 5]);
    assert_eq!(d.codes, vec![5]);
    assert_eq!(d.encode(&4), Code(1));
    assert_eq!(d.encode(&5), Code(2));
    assert_eq!(d.encode(&6), Code(3));
}

#[test]
fn few_clusters_all_exact() {
    let d: Dict<i32> = Dict::new(Mode::Byte, vec![3, 1, 2]);
    assert_eq!(d.codes, vec![1, 2, 3]);
    assert_eq!(d.encode(&0), Code(1));
    assert_eq!(d.encode(&1), Code(2));
    assert_eq!(d.encode(&2), Code(4));
    assert_eq!(d.encode(&3), Code(6));
    assert_eq!(d.encode(&4), Code(7));
}

#[test]
fn normal_floats_byte_mode() {
    let mut rng = Lcg(42);
    let sample: Vec<Float> = (0..10000).map(|_| Float(FloatOrd(rng.normal()))).collect();
    let d = Dict::new(Mode::Byte, sample.clone());
    check_structure(&d);
    assert_eq!(d.codes.len(), 127);
    assert_eq!(d.encode(&Float(FloatOrd(f64::NEG_INFINITY))), Code(1));
    assert_eq!(d.encode(&Float(FloatOrd(f64::INFINITY))), Code(0xff));
    let mid = d.encode(&Float(FloatOrd(0.0)));
    assert!(mid.0 > 100 && mid.0 < 156);
    for i in 0..200 {
        check_pair(&d, &sample[i], &sample[i + 1]);
    }
}

#[test]
fn words_all_exact() {
    let words = ["and", "ape", "the", "thorn", "yolo", "zygote"];
    let reps = [5, 3, 10, 2, 1, 4];
    let mut sample: Vec<String> = Vec::new();
    for (w, r) in words.iter().zip(reps.iter()) {
        for _ in 0..*r {
            sample.push(w.to_string());
        }
    }
    let d = Dict::new(Mode::Byte, sample);
    let expected: Vec<String> = words.iter().map(|w| w.to_string()).collect();
    assert_eq!(d.codes, expected);
    for (i, w) in words.iter().enumerate() {
        assert_eq!(d.encode(&w.to_string()), Code(2 * (i as u16 + 1)));
    }
    assert_eq!(d.encode(&String::new()), Code(1));
    assert_eq!(d.encode(&"zzz".to_string()), Code(13));
    assert_eq!(d.encode(&"b".to_string()), Code(5));
}

#[test]
fn random_i32_word_mode() {
    let mut rng = Lcg(7);
    let sample: Vec<i32> = (0..100000).map(|_| rng.next() as u32 as i32).collect();
    let d = Dict::new(Mode::Word, sample.clone());
    check_structure(&d);
    assert!(d.codes.len() > 16384);
    assert!(d.codes.len() <= 32767);
    for _ in 0..1000 {
        let a = sample[(rng.next() % 100000) as usize];
        let b = sample[(rng.next() % 100000) as usize];
        check_pair(&d, &a, &b);
        check_pair(&d, &a, &a.wrapping_add(1));
        check_pair(&d, &a.wrapping_sub(1), &a);
    }
}

#[test]
fn distinct_values_stepped() {
    let sample: Vec<i32> = (0..1000).rev().collect();
    let d = Dict::new(Mode::Byte, sample);
    let expected: Vec<i32> = (0..125).map(|i| 8 * i).collect();
    assert_eq!(d.codes, expected);
    assert_eq!(d.encode(&8), Code(4));
    assert_eq!(d.encode(&9), Code(5));
    assert_eq!(d.encode(&992), Code(250));
    assert_eq!(d.encode(&993), Code(251));
}

#[test]
fn frequent_value_gets_exact_code() {
    let mut sample: Vec<i32> = (0..600).map(|i| i / 3).collect();
    sample.extend(std::iter::repeat(100).take(50));
    let d = Dict::new(Mode::Byte, sample);
    let expected: Vec<i32> = (0..100).map(|i| 2 * i).collect();
    assert_eq!(d.codes, expected);
    assert!(d.encode(&100).is_exact());
}

#[test]
fn window_boundary_cluster_is_passed_over() {
    let mut sample: Vec<i32> = (0..600).map(|i| i / 3).collect();
    sample.extend(std::iter::repeat(101).take(50));
    let d = Dict::new(Mode::Byte, sample);
    assert_eq!(d.codes.len(), 100);
    assert!(!d.codes.contains(&101));
    assert!(!d.encode(&101).is_exact());
}

#[test]
fn order_laws_on_neighbours() {
    let sample: Vec<i32> = (0..3000).map(|i| (i * i) % 1009 - 500).collect();
    for mode in [Mode::Byte, Mode::Word] {
        let d = Dict::new(mode, sample.clone());
        check_structure(&d);
        for s in sample.iter().take(400) {
            check_pair(&d, &(s - 1), s);
            check_pair(&d, s, &(s + 1));
            check_pair(&d, s, s);
        }
        for a in [-600, -500, -1, 0, 1, 508, 600] {
            for b in [-600, -500, -1, 0, 1, 508, 600] {
                check_pair(&d, &a, &b);
            }
        }
    }
}

#[test]
fn exact_code_separates_neighbours() {
    let d: Dict<i32> = Dict::new(Mode::Byte, vec![10, 20, 30]);
    assert!(d.encode(&20).is_exact());
    assert!(d.encode(&19) < d.encode(&20));
    assert!(d.encode(&20) < d.encode(&21));
    assert_eq!(d.encode(&15), d.encode(&19));
    assert_eq!(d.encode(&i32::MIN), Code(1));
    assert_eq!(d.encode(&i32::MAX), Code(7));
}
