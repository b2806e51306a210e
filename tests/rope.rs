use endo::dna::Dna::{self, C, F, I, P};
use endo::rope::DnaRope;
use std::ops::Range;

fn sample_dna() -> DnaRope {
    DnaRope::from_raw(vec![
        vec![I, C, F, P],
        vec![],
        vec![I],
        vec![C],
        vec![F],
        vec![P],
        vec![I, I, I],
        vec![],
        vec![P, P],
        vec![F],
        vec![P, P],
        vec![],
        vec![P, P],
    ])
}

#[test]
fn next() {
    let dna_rope = sample_dna();

    let mut iter = dna_rope.iter();

    assert_eq!(iter.next(), Some(I));
    assert_eq!(iter.next(), Some(C));
    assert_eq!(iter.next(), Some(F));
    assert_eq!(iter.next(), Some(P));
    assert_eq!(iter.next(), Some(I));
    assert_eq!(iter.next(), Some(C));
    assert_eq!(iter.next(), Some(F));
    assert_eq!(iter.next(), Some(P));
    assert_eq!(iter.next(), Some(I));
    assert_eq!(iter.next(), Some(I));
    assert_eq!(iter.next(), Some(I));
    assert_eq!(iter.next(), Some(P));
    assert_eq!(iter.next(), Some(P));
    assert_eq!(iter.next(), Some(F));
    assert_eq!(iter.next(), Some(P));
    assert_eq!(iter.next(), Some(P));
    assert_eq!(iter.next(), Some(P));
    assert_eq!(iter.next(), Some(P));
    assert_eq!(iter.next(), None);
    iter.step_back();
    assert_eq!(iter.next(), Some(P));
    assert_eq!(iter.next(), None);

    let as_vec: Vec<Dna> = dna_rope.as_vec();
    assert_eq!(as_vec, vec![I, C, F, P, I, C, F, P, I, I, I, P, P, F, P, P, P, P]);

    (0..as_vec.len()).for_each(|_| iter.step_back());
    assert_eq!(iter.next(), Some(I));
    assert_eq!(iter.next(), Some(C));
    assert_eq!(iter.next(), Some(F));
    assert_eq!(iter.next(), Some(P));
    iter.step_back();
    iter.step_back();
    assert_eq!(iter.next(), Some(F));
}

fn check_index_pair(dna_rope: &DnaRope) {
    let n = dna_rope.len();
    let data = (0..n)
        .map(|x| match dna_rope.index_pair(x) {
            Some((vec, index)) => dna_rope.chunk(vec)[index],
            None => panic!(),
        })
        .collect::<Vec<_>>();

    assert_eq!(data, dna_rope.as_vec());
}

#[test]
fn index_pair() {
    let dna_rope = DnaRope::from(vec![]);
    assert_eq!(dna_rope.index_pair(0), None);

    let dna_rope = DnaRope::from(vec![I]);
    assert_eq!(dna_rope.index_pair(1), None);

    let dna_rope = DnaRope::from_raw(vec![vec![], vec![], vec![], vec![F]]);
    assert_eq!(dna_rope.chunk(dna_rope.index_pair(0).unwrap().0)[0], F);

    let dna_rope = sample_dna();
    check_index_pair(&dna_rope);
    check_index_pair(&DnaRope::from_raw(vec![
        vec![C, I, F, F, F],
        vec![],
        vec![],
        vec![],
        vec![],
        vec![I],
        vec![],
        vec![],
        vec![],
        vec![P, P, I, I, C, C, F, F],
        vec![],
    ]));
}

fn sample_three_group(a: usize, b: usize, c: usize) -> Vec<Vec<Dna>> {
    vec![vec![I; a], vec![C; b], vec![P; c]]
}

fn sample_three_group_flat(a: usize, b: usize, c: usize) -> Vec<Dna> {
    vec![I; a].into_iter().chain(vec![C; b].into_iter()).chain(vec![P; c].into_iter()).collect()
}

fn sample_three_group_dna(a: usize, b: usize, c: usize) -> DnaRope {
    DnaRope::from_raw(sample_three_group(a, b, c))
}

#[test]
fn split_off() {
    let len = 10 + 20 + 30;
    for at in 0..=len {
        let mut prefix = sample_three_group_flat(10, 20, 30);
        let suffix = prefix.split_off(at);
        let mut dna_rope_prefix = sample_three_group_dna(10, 20, 30);
        let dna_rope_suffix = dna_rope_prefix.split_off(at);

        assert_eq!(dna_rope_prefix.rope_count(), dna_rope_prefix.index_len());
        if dna_rope_prefix.index_len() != 0 {
            assert_eq!(dna_rope_prefix.len(), prefix.len());
        }

        assert_eq!(dna_rope_prefix.as_vec(), prefix);
        assert_eq!(dna_rope_suffix.as_vec(), suffix);
    }
}

#[test]
fn copy_from_range() {
    let arr = sample_three_group_flat(10, 20, 30);
    let dna_rope = sample_three_group_dna(10, 20, 30);
    for i in 0..arr.len() {
        for j in i..=arr.len() {
            let expected = &arr[i..j];
            let actual = dna_rope.copy_from_range(i..j);
            assert_eq!(&actual[..], expected);
        }
    }
}

fn case_split_by_ranges(ranges: &[Range<usize>]) {
    let arr = sample_three_group_flat(10, 20, 30);
    let dna_rope = sample_three_group_dna(10, 20, 30);
    let result = dna_rope.split_by_ranges(ranges);
    for (index, range) in ranges.iter().enumerate() {
        let expected = &arr[range.clone()];
        let actual = result[index].as_vec();
        assert_eq!(&actual[..], expected);
    }
}

#[test]
fn split_by_ranges() {
    case_split_by_ranges(&[0..10 + 20 + 30]);
    case_split_by_ranges(&[0..10, 0..10 + 20 + 30]);
    case_split_by_ranges(&[0..10, 10..10 + 20, 10 + 20..10 + 20 + 30]);
    case_split_by_ranges(&[5..15, 15..10 + 25, 10 + 25..10 + 20 + 29]);
    case_split_by_ranges(&[5..16, 15..10 + 24, 10 + 25..10 + 20 + 29]);

    let dna_rope = DnaRope::from(vec![I, C, F, P, F, F, F, F, C, C, C, P]);
    let result = dna_rope.split_by_ranges(&[0..4, 4..8, 0..4]);
    let mut dna_rope = DnaRope::from(vec![C, C, C, C]);
    for e in result {
        dna_rope.prepend(e);
    }
    let expected = vec![I, C, F, P, F, F, F, F, I, C, F, P, C, C, C, C];
    assert_eq!(dna_rope.as_vec(), expected);
}

#[test]
fn iter_dna_search() {
    let dna_rope = DnaRope::from(vec![I, C, F, P]);
    let iter = dna_rope.iter();
    let old_pos = iter.pos();
    assert_eq!(iter.dna_search(&[I, C, F, P]), Some(0));
    assert_eq!(old_pos, iter.pos());

    let dna_rope = DnaRope::from(vec![I, C, I, C, I, C, I, C, I, C, F, I, C, I, C]);
    assert_eq!(dna_rope.iter().dna_search(&[I, C, F]), Some(8));
}

#[test]
fn search_matches_brute_force() {
    let text = vec![I, C, I, C, C, F, I, C, C, P, I, C, C, F];
    let rope = DnaRope::from_raw(vec![text[..3].to_vec(), vec![], text[3..9].to_vec(), text[9..].to_vec()]);
    let needles: Vec<Vec<Dna>> = vec![vec![C], vec![I, C, C], vec![C, F], vec![P, I], vec![F, F], vec![I, C, C, F]];
    for needle in needles {
        for start in 0..=text.len() {
            let mut iter = rope.iter();
            rope.iter_seek(&mut iter, start);
            let expected = (start..text.len())
                .find(|&p| p + needle.len() <= text.len() && text[p..p + needle.len()] == needle[..]);
            assert_eq!(iter.dna_search(&needle), expected);
        }
    }
    assert_eq!(rope.iter().dna_search(&[]), None);
}

#[test]
fn rope_operations_keep_length_and_offsets() {
    let mut a = DnaRope::from_raw(vec![vec![I, C], vec![], vec![F]]);
    let b = DnaRope::from(vec![P, P]);
    a.append(b);
    assert_eq!(a.len(), 5);
    assert_eq!(a.rope_count(), a.index_len());
    a.prepend(DnaRope::from_raw(vec![vec![C], vec![]]));
    assert_eq!(a.as_vec(), vec![C, I, C, F, P, P]);
    assert_eq!(a.len(), a.as_vec().len());
    assert_eq!(a.rope_count(), a.index_len());
    a.append_dna(vec![F]);
    let tail = a.split_off(2);
    assert_eq!(a.as_vec(), vec![C, I]);
    assert_eq!(tail.as_vec(), vec![C, F, P, P, F]);
    assert_eq!(tail.len(), 5);
    assert_eq!(tail.rope_count(), tail.index_len());
    let pieces = tail.split_by_ranges(&[1..3, 2..4, 0..1]);
    assert_eq!(pieces[0].as_vec(), vec![F, P]);
    assert_eq!(pieces[1].as_vec(), vec![P, P]);
    assert_eq!(pieces[2].as_vec(), vec![C]);
    let d = pieces[0].as_vec();
    let one = DnaRope::from_raw(vec![d.clone(), vec![], d]).defragment();
    assert_eq!(one.rope_count(), 1);
    assert_eq!(one.as_vec(), vec![F, P, F, P]);
}

#[test]
fn get_range_clamps_to_end() {
    let rope = DnaRope::from(vec![I, C, F, P]);
    assert_eq!(rope.get_range(1..3), vec![C, F]);
    assert_eq!(rope.get_range(2..9), vec![F, P]);
    assert_eq!(rope.get_range(6..9), Vec::<Dna>::new());
}
