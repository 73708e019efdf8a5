use bedrock_cracker::block_data::get_filter_power;
use bedrock_cracker::block_data::BlockFilter;
use bedrock_cracker::cross::passes_checks;
use bedrock_cracker::estimate_result_amount;
use bedrock_cracker::java::MASK48;
use bedrock_cracker::plan::block_candidates;
use bedrock_cracker::plan::block_starts;
use bedrock_cracker::plan::is_checkable;
use bedrock_cracker::plan::is_measurable;
use bedrock_cracker::plan::list_chunk_size;
use bedrock_cracker::plan::plan_gpu_search;
use bedrock_cracker::plan::split_seed_list;
use bedrock_cracker::plan::thread_range;
use bedrock_cracker::plan::ChunkWalk;
use bedrock_cracker::plan::CHUNK_SIZE;
use bedrock_cracker::raw_data::block::Block;
use bedrock_cracker::raw_data::block_type::BlockType;
use bedrock_cracker::raw_data::modes::BedrockGeneration;

#[test]
fn estimate_is_the_power_of_the_filters() {
    let blocks = [
        Block::new(0, 4, 0, BlockType::BEDROCK),
        Block::new(0, 124, 0, BlockType::BEDROCK),
        Block::new(5, 1, -5, BlockType::OTHER),
    ];
    let filters: Vec<_> =
        blocks.iter().map(|b| BlockFilter::from(b, BedrockGeneration::Normal)).collect();
    assert_eq!(estimate_result_amount(&blocks), get_filter_power(&filters));
    assert_eq!(estimate_result_amount(&[]), 1 << 48);
    assert_eq!(estimate_result_amount(&blocks[..1]), 56294995342131);
}

#[test]
fn which_blocks_can_be_used() {
    for block_type in [BlockType::BEDROCK, BlockType::OTHER] {
        for y in [1, 2, 3, 4, 123, 124, 125, 126] {
            assert!(is_measurable(&Block::new(0, y, 0, block_type)));
            assert!(is_checkable(&Block::new(0, y, 0, block_type)));
        }
    }
    // Layer 0 is always bedrock, so bedrock there tells nothing and anything else is impossible.
    assert!(is_measurable(&Block::new(0, 0, 0, BlockType::BEDROCK)));
    assert!(!is_checkable(&Block::new(0, 0, 0, BlockType::BEDROCK)));
    assert!(!is_measurable(&Block::new(0, 0, 0, BlockType::OTHER)));
    assert!(!is_measurable(&Block::new(0, 5, 0, BlockType::BEDROCK)));
    assert!(is_measurable(&Block::new(0, 5, 0, BlockType::OTHER)));
    assert!(!is_checkable(&Block::new(0, 5, 0, BlockType::OTHER)));
    assert!(is_measurable(&Block::new(0, 122, 0, BlockType::OTHER)));
    assert!(!is_measurable(&Block::new(0, 122, 0, BlockType::BEDROCK)));
    assert!(!is_measurable(&Block::new(0, i32::MIN, 0, BlockType::BEDROCK)));
    assert!(!is_checkable(&Block::new(0, i32::MIN, 0, BlockType::BEDROCK)));
    assert!(is_measurable(&Block::new(0, i32::MIN + 6, 0, BlockType::BEDROCK)));
}

#[test]
fn primary_surface_filters_more() {
    let mode = BedrockGeneration::Normal;
    let floor = Block::new(0, 4, 0, BlockType::BEDROCK);
    let roof = Block::new(0, 126, 0, BlockType::BEDROCK);
    let plan = plan_gpu_search(&[floor, roof], mode);
    assert!(plan.is_floor_primary == (estimate_result_amount(&[floor])
        <= estimate_result_amount(&[roof])));
    let only_roof = plan_gpu_search(&[roof], mode);
    assert!(!only_roof.is_floor_primary);
    assert_eq!(only_roof.fine_checks.len(), 1);
    assert_eq!(only_roof.secondary_checks.len(), 0);
    let only_floor = plan_gpu_search(&[floor], mode);
    assert!(only_floor.is_floor_primary);
    assert_eq!(only_floor.fine_checks, vec![BlockFilter::from(&floor, mode).create_check(0)]);
    assert_eq!(only_floor.coarse_checks, vec![BlockFilter::from(&floor, mode).create_check(12)]);
    let nothing = plan_gpu_search(&[], mode);
    assert!(nothing.is_floor_primary);
    assert!(nothing.coarse_checks.is_empty());
    // A block that rules out little leaves no room for a coarse check.
    let weak = Block::new(0, 1, 0, BlockType::BEDROCK);
    let plan = plan_gpu_search(&[weak], mode);
    assert_eq!(plan.fine_checks.len(), 1);
    assert!(plan.coarse_checks.is_empty());
}

#[test]
fn shares_span_all_seeds() {
    for count in [1, 2, 3, 7, 16, 24, 1000, (1 << 28) - 1] {
        assert_eq!(thread_range(0, count).0, 0);
        assert_eq!(thread_range(count - 1, count).1, 1 << 48);
        for t in (0..count - 1).take(50) {
            assert_eq!(thread_range(t, count).1, thread_range(t + 1, count).0);
            assert_eq!(thread_range(t, count).1 % 4096, 0);
        }
    }
    assert_eq!(thread_range(1, 3), (22906492245 << 12, 45812984490 << 12));
}

#[test]
fn every_seed_has_one_worker() {
    for seed in [0, 4095, 4096, 1 << 30, 123456789012345, MASK48] {
        let owners = (0..7).filter(|t| {
            let (start, end) = thread_range(*t, 7);
            start <= seed && seed < end
        });
        assert_eq!(owners.count(), 1);
    }
}

#[test]
fn chunks_span_the_share() {
    let mut walk = ChunkWalk::new(12344, 100_000_000 / 1000);
    let (first, limit) = (walk.current, walk.limit);
    let mut end = first;
    let mut sum = 0;
    while let Some((from, to)) = walk.next_chunk() {
        assert_eq!(from, end);
        assert!(from < to && to - from <= CHUNK_SIZE);
        assert_eq!(to % 4096, 0);
        sum += to - from;
        end = to;
    }
    assert_eq!(end, limit);
    assert_eq!(sum, limit - first);
    assert_eq!(walk.next_chunk(), None);
}

#[test]
fn progress_of_all_workers_is_all_seeds() {
    let count = 11;
    let sum: u64 = (0..count)
        .map(|t| thread_range(t, count).1 - thread_range(t, count).0)
        .sum();
    assert_eq!(sum, 1 << 48);
}

#[test]
fn blocks_make_up_the_chunk() {
    let mode = BedrockGeneration::Normal;
    let checks: Vec<_> = [
        Block::new(0, 4, 0, BlockType::BEDROCK),
        Block::new(1, 4, 0, BlockType::BEDROCK),
        Block::new(2, 4, 0, BlockType::BEDROCK),
    ]
    .iter()
    .map(|b| BlockFilter::from(b, mode).create_check(0))
    .collect();
    let (start, end) = (5 << 30, (5 << 30) + 200 * 4096);
    let starts = block_starts(start, end);
    assert_eq!(starts.len(), 200);
    assert_eq!(starts[3], start + 3 * 4096);
    assert_eq!(block_starts(start, start), Vec::<u64>::new());
    let mut found = vec![];
    for upper in starts {
        found.extend(block_candidates(&checks, upper));
    }
    let expected: Vec<u64> = (start..end).filter(|s| passes_checks(&checks, *s)).collect();
    assert_eq!(found, expected);
    assert_eq!(block_candidates(&[], 4096), (4096..8192).collect::<Vec<u64>>());
}

#[test]
fn list_parts_are_equal() {
    for len in [1usize, 2, 5, 10, 99, 1000, 1_000_003] {
        for threads in [1u64, 2, 3, 4, 7, 16, 1000, 5_000_000_000] {
            let size = list_chunk_size(len, threads);
            assert_eq!(size, (len as f64 / threads as f64).ceil() as u64);
            assert_eq!(size, (len as u64).div_ceil(threads));
        }
    }
    assert_eq!(list_chunk_size(5, 0), u64::MAX);
    assert_eq!(list_chunk_size(1, u64::MAX), 1);
}

#[test]
fn pieces_make_up_the_list() {
    let list: Vec<u64> = (0..23).map(|i| i * 1000 + 7).collect();
    for threads in [1u64, 2, 3, 5, 22, 23, 24, 100, 0] {
        let parts = split_seed_list(&list, threads);
        assert_eq!(parts.concat(), list);
        let size = list_chunk_size(list.len(), threads);
        let expected: Vec<Vec<u64>> =
            list.chunks(size as usize).map(|part| part.to_vec()).collect();
        assert_eq!(parts, expected);
    }
    assert_eq!(split_seed_list(&list, 5).len(), 5);
    assert_eq!(split_seed_list(&list, 5)[4].len(), 3);
}
