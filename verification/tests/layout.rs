use rokoblador::config::{
    chain_shape, digit_bound_sq, ilog2, most_inner_ranges, next_power_of_two, pow2_bk,
    prefix_range, round_config, ChainShape, Config, Prefix, Projection, RecursionConfig,
    RoundError, SumcheckConfig,
};
use rokoblador::export::caps;
use rokoblador::layout::{
    compute_layout, intersect, push_range_block, vector_specs, w_blocks_r2, Layout, VectorSpec,
    INNER_FLAG, ROLE_W,
};
use rokoblador::r64::{zero, R64};

fn level(prefix: usize, length: usize, next: Option<RecursionConfig>) -> RecursionConfig {
    RecursionConfig {
        decomposition_base_log: 13,
        decomposition_chunks: 4,
        rank: 2,
        prefix: Prefix { prefix, length },
        next: next.map(Box::new),
    }
}

fn round(projection: Projection, next: Option<Config>) -> SumcheckConfig {
    SumcheckConfig {
        composed_witness_length: 16,
        witness_width: 4,
        witness_height: 4,
        basic_commitment_rank: 3,
        commitment_recursion: level(0, 1, Some(level(5, 4, None))),
        opening_recursion: level(3, 3, None),
        projection_recursion: projection,
        norm_bound_sq: 1000,
        most_inner_norm_bound_sq: 100,
        next: next.map(Box::new),
    }
}

#[test]
fn powers_and_logarithms() {
    let p: Vec<usize> = [0, 1, 2, 3, 4, 5, 8, 9, 1000].iter().map(|&n| next_power_of_two(n)).collect();
    assert_eq!(p, vec![1, 1, 2, 4, 4, 8, 8, 16, 1024]);
    let l: Vec<usize> = [1, 2, 3, 4, 7, 8, 1023, 1024].iter().map(|&n| ilog2(n)).collect();
    assert_eq!(l, vec![0, 1, 1, 2, 2, 3, 9, 10]);
    assert_eq!(ilog2(usize::MAX), 63);
    assert_eq!(pow2_bk(13, 0), 1);
    assert_eq!(pow2_bk(13, 3), 1 << 39);
    assert_eq!(pow2_bk(9, 7), 1 << 63);
    assert_eq!(digit_bound_sq(1), 1);
    assert_eq!(digit_bound_sq(13), 4096 * 4096);
    assert_eq!(digit_bound_sq(32), 1 << 62);
}

#[test]
fn shape_of_a_round() {
    let c = round(Projection::Skip, None);
    assert_eq!(
        chain_shape(&c),
        ChainShape {
            a1_rank: 3,
            a1_rank_padded: 4,
            num_digits_y: 4,
            a2_rank: 2,
            num_digits_c1: 4,
            has_c1dec: true,
            width: 4,
            height: 4,
        }
    );
    let mut flat = round(Projection::Skip, None);
    flat.commitment_recursion = level(0, 1, None);
    let s = chain_shape(&flat);
    assert!(!s.has_c1dec);
    assert_eq!(s.num_digits_c1, 0);
}

#[test]
fn rounds_of_a_chain() {
    let last = round(Projection::Skip, Some(Config::Other));
    let mut second = round(Projection::Skip, None);
    second.witness_width = 9;
    second.next = Some(Box::new(Config::Sumcheck(last)));
    let root = Config::Sumcheck(round(Projection::Skip, Some(Config::Sumcheck(second))));
    assert_eq!(round_config(&root, 0).unwrap().witness_width, 4);
    assert_eq!(round_config(&root, 1).unwrap().witness_width, 4);
    assert_eq!(round_config(&root, 2).unwrap().witness_width, 9);
    assert_eq!(round_config(&root, 3).unwrap().next, Some(Box::new(Config::Other)));
    assert_eq!(round_config(&root, 4), Err(RoundError::RoundNotSumcheck));
    assert_eq!(round_config(&root, 99), Err(RoundError::RoundNotSumcheck));
    assert_eq!(round_config(&Config::Other, 1), Err(RoundError::RootNotSumcheck));
    let short = Config::Sumcheck(round(Projection::Skip, None));
    assert_eq!(round_config(&short, 2), Err(RoundError::RoundNotSumcheck));
}

#[test]
fn prefixes_and_inner_ranges() {
    assert_eq!(prefix_range(&Prefix { prefix: 3, length: 3 }, 4), (6, 8));
    assert_eq!(prefix_range(&Prefix { prefix: 0, length: 0 }, 4), (0, 16));
    assert_eq!(prefix_range(&Prefix { prefix: 5, length: 4 }, 4), (5, 6));
    let c = round(Projection::Skip, None);
    assert_eq!(most_inner_ranges(&c), vec![(5, 6), (6, 8)]);
    let c = round(Projection::Coarse(level(2, 2, None)), None);
    assert_eq!(most_inner_ranges(&c), vec![(5, 6), (6, 8), (8, 12)]);
    let c = round(
        Projection::Fine {
            recursion_constant_term: level(1, 4, None),
            recursion_batched_projection: level(0, 1, Some(level(9, 4, None))),
        },
        None,
    );
    assert_eq!(most_inner_ranges(&c), vec![(5, 6), (6, 8), (1, 2), (9, 10)]);
    assert_eq!(c.commitment_recursion.most_inner_config().prefix.prefix, 5);
}

#[test]
fn layout_covers_the_inner_ranges() {
    let c = round(Projection::Coarse(level(11, 4, None)), None);
    let shape = chain_shape(&c);
    let l = compute_layout(&c, &shape);
    assert_eq!(
        l,
        Layout {
            total: 16,
            v0_start: 5,
            v0_end: 12,
            w_before_len: 10,
            w_after_len: 8,
            ydec_len: 128,
            c1dec_len: 16,
        }
    );
    assert_eq!(
        vector_specs(&l),
        [
            VectorSpec { n: 14, role: ROLE_W, flags: INNER_FLAG },
            VectorSpec { n: 162, role: ROLE_W, flags: 0 },
        ]
    );
}

#[test]
fn layout_without_inner_elements_takes_the_lower_half() {
    let mut c = round(Projection::Skip, None);
    c.composed_witness_length = 64;
    c.commitment_recursion = level(9, 4, None);
    c.opening_recursion = level(10, 4, None);
    let mut shape = chain_shape(&c);
    let l = compute_layout(&c, &shape);
    assert_eq!((l.v0_start, l.v0_end), (0, 8));
    assert_eq!((l.w_before_len, l.w_after_len, l.c1dec_len), (0, 16, 0));
    shape.height = 0;
    let l = compute_layout(&c, &shape);
    assert_eq!((l.total, l.v0_start, l.v0_end), (0, 0, 0));
}

#[test]
fn intersections() {
    assert_eq!(intersect(0, 10, 5, 20), Some((5, 10)));
    assert_eq!(intersect(7, 8, 0, 20), Some((7, 8)));
    assert_eq!(intersect(0, 5, 5, 10), None);
    assert_eq!(intersect(5, 3, 0, 10), None);
}

fn small() -> Layout {
    Layout {
        total: 10,
        v0_start: 3,
        v0_end: 6,
        w_before_len: 6,
        w_after_len: 8,
        ydec_len: 0,
        c1dec_len: 0,
    }
}

#[test]
fn blocks_of_a_range() {
    assert_eq!(w_blocks_r2(&small(), 0, 10), vec![(0, 0, 6, 3), (1, 0, 6, 0), (1, 6, 8, 6)]);
    assert_eq!(w_blocks_r2(&small(), 2, 7), vec![(0, 0, 6, 3), (1, 4, 2, 2), (1, 6, 2, 6)]);
    assert_eq!(w_blocks_r2(&small(), 4, 5), vec![(0, 2, 2, 4)]);
    assert_eq!(w_blocks_r2(&small(), 7, 9), vec![(1, 8, 4, 7)]);
    assert_eq!(w_blocks_r2(&small(), 4, 4), vec![]);
    let mut other = small();
    other.w_after_len = 0;
    assert_eq!(w_blocks_r2(&other, 2, 7), w_blocks_r2(&small(), 2, 7));
}

#[test]
fn factors_follow_their_blocks() {
    let full: Vec<R64> = (0..10u64)
        .map(|i| {
            let mut e = zero();
            e[0] = i;
            e
        })
        .collect();
    let (mut idx, mut off, mut len, mut phi) = (vec![7], vec![8], vec![9], vec![]);
    push_range_block(&mut idx, &mut off, &mut len, &mut phi, &full, &small(), 2, 7);
    assert_eq!(idx, vec![7, 0, 1, 1]);
    assert_eq!(off, vec![8, 0, 4, 6]);
    assert_eq!(len, vec![9, 6, 2, 2]);
    let firsts: Vec<u64> = phi.iter().map(|e| e[0]).collect();
    assert_eq!(firsts, vec![2, 3, 4, 5, 6, 7, 0, 1, 8, 9]);
}

#[test]
fn caps_add_up() {
    let c = round(Projection::Skip, None);
    let shape = chain_shape(&c);
    let l = compute_layout(&c, &shape);
    assert_eq!(caps(&shape, 13, 5, &l), 128 * 64 * 4096 * 4096 + 16 * 64 * 256);
    let mut flat = shape;
    flat.has_c1dec = false;
    let lf = compute_layout(&c, &flat);
    assert_eq!(caps(&flat, 13, 0, &lf), 128 * 64 * 4096 * 4096);
}
