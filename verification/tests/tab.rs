use bedrock_cracker::estimate_result_amount;
use bedrock_cracker::progress::CrackProgress;
use bedrock_cracker::raw_data::block::Block as BlockInfo;
use bedrock_cracker::raw_data::block_type::BlockType;
use bedrock_cracker::raw_data::modes::BedrockGeneration;
use bedrock_cracker::raw_data::modes::OutputMode;
use bedrock_cracker::session::poll_cracker;
use bedrock_cracker::session::shown_seed;
use bedrock_cracker::session::CrackSession;
use bedrock_cracker::session::CrackerState;
use bedrock_cracker::session::PollAction;
use bedrock_cracker::session::SessionAction;
use bedrock_cracker::tab::BdrkMessage;
use bedrock_cracker::tab::BdrkTab;
use bedrock_cracker::tab::BlockEntry;
use bedrock_cracker::tab::BlockMessage;
use bedrock_cracker::tab::TabCommand;
use bedrock_cracker::tab::TabMessage;
use bedrock_cracker::text::config_lines;
use bedrock_cracker::text::first_lines;
use bedrock_cracker::text::parse_seed_list;
use bedrock_cracker::text::parse_thread_count;
use bedrock_cracker::text::parse_u64;

#[test]
fn test_check_invalid() {
    let block = BlockInfo::new(1,1,1,BlockType::BEDROCK);
    let mut valid_blocks = vec![
        BlockInfo::new(1,2,1,BlockType::BEDROCK),
        BlockInfo::new(1,3,1,BlockType::BEDROCK)
    ];
    //no duplicates -> block is valid
    assert!(!BdrkTab::check_invalid(&block, &valid_blocks, BedrockGeneration::Normal));

    //duplicates -> block is invalid
    valid_blocks.push(block.clone());
    assert!(BdrkTab::check_invalid(&block, &valid_blocks, BedrockGeneration::Normal));
}

#[test]
fn test_check_invalid_paper() {
    let mut block = BlockInfo::new(1, 1, 1, BlockType::BEDROCK);
    let valid_blocks = vec![
        BlockInfo::new(1,2,1,BlockType::OTHER)
    ];
    //valid position
    assert!(!BdrkTab::check_invalid(&block, &valid_blocks, BedrockGeneration::Paper1_18));

    //bedrock ont op of other is an invalid placement
    block.y = 3;
    assert!(BdrkTab::check_invalid(&block, &valid_blocks, BedrockGeneration::Paper1_18));

    //Two of the same type in the same column is redundant
    block.block_type = BlockType::OTHER;
    assert!(BdrkTab::check_invalid(&block, &valid_blocks, BedrockGeneration::Paper1_18));

    //valid on opposite sites
    block.y = 123;
    assert!(!BdrkTab::check_invalid(&block, &valid_blocks, BedrockGeneration::Paper1_18));
}

fn entry(x: i32, y: i32, block_type: BlockType) -> BlockEntry {
    BlockEntry {
        empty: false,
        position: Some(BlockInfo::new(x, y, 0, block_type)),
        duplicate: false,
    }
}

#[test]
fn roof_order_is_the_other_way_round() {
    let mode = BedrockGeneration::Paper1_18;
    let low = BlockInfo::new(1, 124, 1, BlockType::BEDROCK);
    let high = BlockInfo::new(1, 125, 1, BlockType::OTHER);
    assert!(BdrkTab::check_invalid(&low, &[high], mode));
    assert!(BdrkTab::check_invalid(&high, &[low], mode));
    let low = BlockInfo::new(1, 124, 1, BlockType::OTHER);
    let high = BlockInfo::new(1, 125, 1, BlockType::BEDROCK);
    assert!(!BdrkTab::check_invalid(&low, &[high], mode));
    assert!(!BdrkTab::check_invalid(&high, &[low], mode));
    assert!(!BdrkTab::check_invalid(&high, &[], mode));
}

#[test]
fn new_tab() {
    let tab = BdrkTab::new();
    assert_eq!(tab.estimated_seeds, 1 << 48);
    assert_eq!(tab.blocks, vec![BlockEntry::new()]);
    assert!(tab.valid_blocks.is_empty());
    assert_eq!(tab.mode, BedrockGeneration::Normal);
    assert_eq!(tab.output_mode, OutputMode::WorldSeed);
    assert!(tab.seed_list.is_empty());
    assert!(!tab.use_gpu);
    let default = BdrkTab::default();
    assert_eq!(default.estimated_seeds, 0);
    assert!(default.blocks.is_empty());
}

#[test]
fn an_empty_entry_is_kept_at_the_end() {
    let mut tab = BdrkTab::default();
    tab.add_entry();
    assert_eq!(tab.blocks, vec![BlockEntry::new()]);
    tab.add_entry();
    assert_eq!(tab.blocks.len(), 1);
    tab.blocks[0] = entry(0, 4, BlockType::BEDROCK);
    tab.add_entry();
    assert_eq!(tab.blocks.len(), 2);
    assert!(tab.blocks[1].empty);
}

#[test]
fn typing_in_blocks() {
    let mut tab = BdrkTab::new();
    let block = BlockInfo::new(3, 4, 5, BlockType::BEDROCK);
    let change = BlockMessage::Changed { empty: false, position: Some(block) };
    assert_eq!(tab.update(BdrkMessage::Block(0, change)), TabCommand::Nothing);
    assert_eq!(tab.blocks.len(), 2);
    assert_eq!(tab.valid_blocks, vec![block]);
    assert_eq!(tab.estimated_seeds, estimate_result_amount(&[block]));
    tab.update(BdrkMessage::Block(1, change));
    assert!(tab.blocks[1].duplicate);
    assert!(!tab.blocks[0].duplicate);
    assert_eq!(tab.valid_blocks, vec![block]);
    assert_eq!(tab.blocks.len(), 3);
    // No such entry.
    tab.update(BdrkMessage::Block(7, change));
    assert_eq!(tab.blocks.len(), 3);
    tab.update(BdrkMessage::Block(0, BlockMessage::Deleted));
    assert_eq!(tab.blocks.len(), 2);
    assert!(!tab.blocks[0].duplicate);
    assert_eq!(tab.valid_blocks, vec![block]);
    let half = BlockMessage::Changed { empty: false, position: None };
    tab.update(BdrkMessage::Block(0, half));
    assert!(tab.valid_blocks.is_empty());
    assert_eq!(tab.estimated_seeds, 1 << 48);
}

#[test]
fn estimate_is_at_least_one() {
    let mut tab = BdrkTab::new();
    tab.load_config((0..100).map(|x| entry(x, 4, BlockType::BEDROCK)).collect());
    assert_eq!(tab.valid_blocks.len(), 100);
    assert_eq!(estimate_result_amount(&tab.valid_blocks), 0);
    assert_eq!(tab.estimated_seeds, 1);
    assert_eq!(tab.blocks.len(), 101);
}

#[test]
fn the_mode_decides_which_blocks_are_taken() {
    let mut tab = BdrkTab::new();
    tab.load_config(vec![
        entry(0, 1, BlockType::BEDROCK),
        entry(0, 2, BlockType::BEDROCK),
        entry(0, 3, BlockType::OTHER),
        entry(1, 3, BlockType::OTHER),
    ]);
    assert_eq!(tab.valid_blocks.len(), 4);
    tab.update(BdrkMessage::CrackerMode(BedrockGeneration::Paper1_18));
    assert_eq!(tab.valid_blocks.len(), 3);
    let marks: Vec<bool> = tab.blocks.iter().map(|b| b.duplicate).collect();
    assert_eq!(marks, vec![false, true, false, false, false]);
    for a in tab.valid_blocks.iter() {
        let others: Vec<BlockInfo> =
            tab.valid_blocks.iter().filter(|b| *b != a).cloned().collect();
        assert!(!BdrkTab::check_invalid(a, &others, tab.mode));
    }
    let before = tab.blocks.clone();
    tab.update_blocks();
    assert_eq!(tab.blocks, before);
    tab.update_invalid_states();
    assert_eq!(tab.blocks, before);
}

#[test]
fn other_messages() {
    let mut tab = BdrkTab::new();
    tab.update(BdrkMessage::OutputMode(OutputMode::StructureSeed));
    assert_eq!(tab.output_mode, OutputMode::StructureSeed);
    tab.update(BdrkMessage::ToggleGpu(true));
    assert!(tab.use_gpu);
    assert!(matches!(tab.seed_list_message(), BdrkMessage::LoadSeedList));
    assert_eq!(tab.update(BdrkMessage::LoadSeedList), TabCommand::PickSeedList);
    let file = Some("12\n+7\r\nx\n\n18446744073709551616\n5".to_string());
    assert_eq!(tab.update(BdrkMessage::LoadedSeedList(file)), TabCommand::Nothing);
    assert_eq!(*tab.seed_list, vec![12, 7, 5]);
    assert!(matches!(tab.seed_list_message(), BdrkMessage::LoadedSeedList(None)));
    tab.update(tab.seed_list_message());
    assert!(tab.seed_list.is_empty());
    let message = BdrkMessage::from(TabMessage::BdrkMessage(BdrkMessage::ToggleGpu(false)));
    tab.update(message);
    assert!(!tab.use_gpu);
}

fn machine_lines(text: &str) -> Vec<Vec<u8>> {
    text.lines().map(|l| l.as_bytes().to_vec()).collect()
}

#[test]
fn lines_are_those_of_std() {
    for text in [
        "", "\n", "\n\n", "a", "a\n", "a\nb", "a\r\nb\r\n", "a\r", "\r\n", "\r", "a\r\r\nb", "\u{e4}\r\n\u{1F600}",
        "x\n\r\ny\r",
    ] {
        assert_eq!(first_lines(text.as_bytes(), 1000), machine_lines(text));
        assert_eq!(config_lines(text), machine_lines(text));
        for limit in 0..3 {
            let expected: Vec<Vec<u8>> = machine_lines(text).into_iter().take(limit).collect();
            assert_eq!(first_lines(text.as_bytes(), limit), expected);
        }
    }
    let long = "q\n".repeat(300);
    assert_eq!(config_lines(&long).len(), 200);
}

#[test]
fn numbers_are_those_of_std() {
    for text in [
        "", "+", "-", "0", "00", "7", "+7", "-7", "++7", "+-7", "7+", " 7", "7 ", "a", "1a", "12345678901234567890",
        "18446744073709551615", "18446744073709551616", "99999999999999999999", "00000000000000000000018446744073709551615",
        "184467440737095516150", "\u{0661}",
    ] {
        assert_eq!(parse_u64(text.as_bytes()), text.parse::<u64>().ok());
        assert_eq!(parse_thread_count(text), text.parse::<u64>().unwrap_or(1));
    }
}

#[test]
fn seed_lists_are_those_of_std() {
    for text in ["", "1\n2\n3", "1\r\n\r\n2\r\n3\r", "a\n5\n6b\n+8\n", "18446744073709551615\n"] {
        let expected: Vec<u64> = text.lines().filter_map(|l| l.parse::<u64>().ok()).collect();
        assert_eq!(parse_seed_list(text), expected);
    }
}

#[test]
fn polling() {
    assert_eq!(poll_cracker(&CrackerState::Idle), PollAction::Nothing);
    assert_eq!(poll_cracker(&CrackerState::Starting(None)), PollAction::Start);
    assert_eq!(
        poll_cracker(&CrackerState::Starting(Some("out.txt".to_string()))),
        PollAction::Start
    );
    assert_eq!(poll_cracker(&CrackerState::Running), PollAction::KeepListening);
}

#[test]
fn seeds_are_shown_signed() {
    assert_eq!(shown_seed(5), 5);
    assert_eq!(shown_seed(u64::MAX), -1);
    assert_eq!(shown_seed(1 << 63), i64::MIN);
    assert_eq!(shown_seed(i64::MAX as u64), i64::MAX);
}

#[test]
fn every_seed_is_handed_out_once() {
    let mut session = CrackSession::new(&[]);
    assert_eq!(session.total_seeds, 1 << 48);
    assert_eq!(session.record(CrackProgress::Seed(3)), SessionAction::Found(3));
    assert_eq!(session.record(CrackProgress::Seed(u64::MAX)), SessionAction::Found(-1));
    assert_eq!(session.record(CrackProgress::Progress(100)), SessionAction::Update(vec![3, -1]));
    assert_eq!(session.record(CrackProgress::Progress(11)), SessionAction::Update(vec![]));
    session.record(CrackProgress::Seed(8));
    assert_eq!(session.seeds, vec![8]);
    assert_eq!(session.seeds_checked, 111);
    assert_eq!(session.total_found, 3);
    assert_eq!(session.remaining(), (1 << 48) - 111);
    assert!(session.can_record(&CrackProgress::Progress(u64::MAX - 111)));
    assert!(!session.can_record(&CrackProgress::Progress(u64::MAX - 110)));
    assert!(session.can_record(&CrackProgress::Seed(0)));
    let mut list = CrackSession::new(&[4, 5, 6]);
    assert_eq!(list.total_seeds, 3);
    list.record(CrackProgress::Progress(5));
    assert_eq!(list.remaining(), 0);
}

#[test]
fn a_message_for_no_entry_changes_nothing() {
    let mut tab = BdrkTab::new();
    let impossible = BlockInfo::new(0, 0, 0, BlockType::OTHER);
    let change = BlockMessage::Changed { empty: false, position: Some(impossible) };
    assert_eq!(tab.update(BdrkMessage::Block(1, change)), TabCommand::Nothing);
    assert_eq!(tab.blocks, vec![BlockEntry::new()]);
    assert_eq!(tab.estimated_seeds, 1 << 48);
}
