use rand::Rng;

use rdg::sample::{integer_given_bounds, string_from_alphanumeric, Reservoir, StringSampler};

#[test]
fn sample_integer_sampling_respects_bounds() {
    let mut lower: u64;
    let mut upper: u64;
    let mut result: u64;
    for _ in 0..100 {
        lower = rand::thread_rng().gen_range(0..100);
        upper = lower + rand::thread_rng().gen_range(1..100);
        result = integer_given_bounds(lower, upper);
        assert!(result >= lower);
        assert!(result < upper);
    }
}

#[test]
fn tests_integer_sampling_respects_bounds() {
    let lower: u64 = 10;
    let upper: u64 = 20;
    let mut result: u64;
    for _ in 0..100 {
        result = integer_given_bounds(lower, upper);
        assert!(result >= lower);
        assert!(result < upper);
    }
}

#[test]
fn integer_sampling_single_value_range() {
    for _ in 0..50 {
        assert_eq!(integer_given_bounds(5, 6), 5);
    }
}

#[test]
fn integer_sampling_never_reaches_upper() {
    for _ in 0..200 {
        let result = integer_given_bounds(0, 2);
        assert!(result == 0 || result == 1);
    }
}

#[test]
fn string_sample() {
    let mut sampler: StringSampler;
    let mut result: String;

    sampler = StringSampler {
        support: vec![vec![String::from("abc")]],
        repetitions: vec![1],
    };
    result = sampler.sample();
    assert_eq!(result, String::from("abc"));

    sampler = StringSampler {
        support: vec![vec![String::from("abc")]],
        repetitions: vec![3],
    };
    result = sampler.sample();
    assert_eq!(result, String::from("abcabcabc"));

    sampler = StringSampler {
        support: vec![vec![String::from("a"), String::from("z")]],
        repetitions: vec![2],
    };
    result = sampler.sample();
    assert!(result == *"aa" || result == *"zz" || result == *"az" || result == *"za");
}

#[test]
fn string_sample_with_choices_is_exact() {
    let sampler = StringSampler {
        support: vec![
            vec![String::from("x"), String::from("y")],
            vec![String::from("ab")],
        ],
        repetitions: vec![2, 1],
    };
    let result = sampler.sample_with_choices(&vec![vec![1, 0], vec![0]]);
    assert_eq!(result, String::from("yxab"));
}

#[test]
fn string_sampling_respects_length() {
    let length: usize = 20;
    let mut result: String;
    for _ in 0..100 {
        result = string_from_alphanumeric(length);
        assert_eq!(result.len(), length);
    }
}

#[test]
fn string_sampling_alphanumeric_characters() {
    let result = string_from_alphanumeric(200);
    for c in result.chars() {
        assert!(c.is_ascii_alphanumeric());
    }
}

#[test]
fn reservoir_starts_empty() {
    let reservoir = Reservoir::new();
    assert!(reservoir.selected.is_none());
    assert_eq!(reservoir.count, 0);
}

#[test]
fn reservoir_single_line_always_selected() {
    for _ in 0..20 {
        let mut reservoir = Reservoir::new();
        reservoir.offer(String::from("only"));
        assert_eq!(reservoir.selected, Some(String::from("only")));
        assert_eq!(reservoir.count, 1);
    }
}

#[test]
fn reservoir_selects_one_of_the_lines() {
    for _ in 0..100 {
        let mut reservoir = Reservoir::new();
        reservoir.offer(String::from("alpha"));
        reservoir.offer(String::from("beta"));
        reservoir.offer(String::from("gamma"));
        let selected = reservoir.selected.unwrap();
        assert!(selected == "alpha" || selected == "beta" || selected == "gamma");
    }
}

#[test]
fn reservoir_is_roughly_uniform() {
    let trials = 3000;
    let mut counts = [0u32; 3];
    let lines = ["alpha", "beta", "gamma"];
    for _ in 0..trials {
        let mut reservoir = Reservoir::new();
        for line in lines.iter() {
            reservoir.offer(String::from(*line));
        }
        let selected = reservoir.selected.unwrap();
        for (k, line) in lines.iter().enumerate() {
            if selected == *line {
                counts[k] += 1;
            }
        }
    }
    assert_eq!(counts[0] + counts[1] + counts[2], trials);
    for count in counts.iter() {
        // expected 1000 out of 3000; allow a generous band around 1/3
        assert!(*count > 800, "line selected far less often than 1/3");
        assert!(*count < 1200, "line selected far more often than 1/3");
    }
}

#[test]
fn reservoir_distinguishes_empty_line_from_no_line() {
    let mut reservoir = Reservoir::new();
    reservoir.offer(String::new());
    assert_eq!(reservoir.selected, Some(String::new()));
    let empty = Reservoir::new();
    assert!(empty.selected.is_none());
}
