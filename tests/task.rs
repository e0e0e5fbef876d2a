use featscan::counts::{has_cpuid_usage, item_total, percent, sort_details, sort_list, Count};
use featscan::instr::Instr;
use featscan::labels::{Feature, Mnemonic, Name, Register, CPUID_FEATURE, FEATURE_COUNT};
use featscan::binary::Segment;
use featscan::task::{Decoder, ReadError, Task, TaskCount, TaskDetail};

fn instr(valid: bool, mnemonic: usize, features: Vec<usize>, registers: [usize; 4]) -> Instr {
    Instr { valid, mnemonic, features, registers }
}

fn pairs(items: &[Count]) -> Vec<(usize, u64)> {
    items.iter().map(|c| (c.id, c.count)).collect()
}

fn count_all(instrs: &[Instr]) -> Vec<Count> {
    let mut task = TaskCount::new();
    for i in instrs {
        assert!(task.can_add(i));
        task.add(i);
    }
    task.into_result()
}

#[test]
fn count_task_credits_every_required_feature() {
    let r = count_all(&[
        instr(true, 1, vec![7, 9], [0; 4]),
        instr(true, 2, vec![9], [0; 4]),
        instr(false, 3, vec![7], [0; 4]),
    ]);
    assert_eq!(pairs(&r), vec![(7, 1), (9, 2)]);
}

#[test]
fn stream_without_features_reports_nothing() {
    let r = count_all(&[instr(true, 1, vec![], [0; 4]), instr(true, 1, vec![], [0; 4])]);
    assert!(r.is_empty());
    assert!(!has_cpuid_usage(&r));
}

#[test]
fn cpuid_usage_follows_the_instructions() {
    let with = count_all(&[instr(true, 1, vec![CPUID_FEATURE], [0; 4])]);
    assert!(has_cpuid_usage(&with));
    let invalid_only = count_all(&[instr(false, 1, vec![CPUID_FEATURE], [0; 4])]);
    assert!(!has_cpuid_usage(&invalid_only));
}

#[test]
fn detail_task_counts_mnemonics_and_registers() {
    let mut task = TaskDetail::new();
    let stream = [
        instr(true, 5, vec![3, 4], [1, 2, 0, 0]),
        instr(true, 6, vec![3], [2, 2, 0, 0]),
        instr(true, 5, vec![3], [0, 0, 0, 0]),
        instr(false, 7, vec![3], [1, 1, 1, 1]),
    ];
    for i in &stream {
        assert!(task.can_add(i));
        task.add(i);
    }
    let (mut details, mut registers) = task.into_result();
    assert_eq!(details.len(), 2);
    assert_eq!((details[0].id(), details[0].count), (3, 3));
    assert_eq!(pairs(details[0].mnemonics()), vec![(5, 2), (6, 1)]);
    assert_eq!((details[1].id(), details[1].count), (4, 1));
    assert_eq!(pairs(details[1].mnemonics()), vec![(5, 1)]);
    for d in &details {
        assert_eq!(item_total(d.mnemonics()), Some(d.count));
    }
    assert_eq!(pairs(&registers), vec![(1, 1), (2, 3)]);

    sort_details(&mut details);
    sort_list(&mut registers);
    assert_eq!(details[0].id(), 3);
    assert_eq!(pairs(&registers), vec![(2, 3), (1, 1)]);
}

#[test]
fn cpuid_then_vaddps_in_stats_mode() {
    // cpuid; vaddps xmm0, xmm1, xmm2
    let bytes = [0x0f, 0xa2, 0xc5, 0xf0, 0x58, 0xc2];
    let mut decoder = Decoder::new(64, TaskCount::new());
    assert!(decoder.read(&bytes).is_ok());
    let mut stats = decoder.into_result();
    sort_list(&mut stats);
    assert_eq!(stats.len(), 2);
    let names: Vec<String> = stats.iter().map(|c| Feature::name(c.id)).collect();
    assert_eq!(names, vec!["AVX".to_string(), "CPUID".to_string()]);
    let total = item_total(&stats).unwrap();
    for c in &stats {
        assert_eq!(c.count, 1);
        assert_eq!(percent(c.count, total), 5000);
    }
    assert!(has_cpuid_usage(&stats));
}

#[test]
fn invalid_bytes_count_for_nothing() {
    // 0x06 (push es) does not exist in 64-bit mode
    let mut decoder = Decoder::new(64, TaskDetail::new());
    assert!(decoder.read(&[0x06]).is_ok());
    let (details, registers) = decoder.into_result();
    assert!(details.is_empty());
    assert!(registers.is_empty());
}

#[test]
fn decoder_reads_each_range_apart() {
    let mut decoder = Decoder::new(64, TaskDetail::new());
    assert!(decoder.read(&[0x0f, 0xa2]).is_ok());
    assert!(decoder.read(&[0x0f, 0xa2]).is_ok());
    let (details, registers) = decoder.into_result();
    let cpuid: Vec<_> = details.iter().filter(|d| d.id() == CPUID_FEATURE).collect();
    assert_eq!(cpuid.len(), 1);
    assert_eq!(cpuid[0].count, 2);
    assert_eq!(cpuid[0].mnemonics().len(), 1);
    assert_eq!(Mnemonic::name(cpuid[0].mnemonics()[0].id), "Cpuid");
    assert!(registers.is_empty());
}

#[test]
fn decoding_in_32_bit_mode() {
    // push es is valid in 32-bit mode
    let mut decoder = Decoder::new(32, TaskCount::new());
    assert!(decoder.read(&[0x06]).is_ok());
    let r = decoder.into_result();
    assert_eq!(r.len(), 1);
    assert!(!has_cpuid_usage(&r));
}

#[test]
fn label_names() {
    assert_eq!(Feature::name(CPUID_FEATURE), "CPUID");
    assert_eq!(Feature::name(0), "INTEL8086");
    assert_eq!(Feature::name(FEATURE_COUNT), "");
    assert_eq!(Mnemonic::name(0), "INVALID");
    assert_eq!(Register::name(0), "None");
    assert_eq!(Register::name(100000), "");
    assert_eq!(
        iced_x86::CpuidFeature::CPUID as usize,
        CPUID_FEATURE,
    );
}

fn segment(offset: u64, size: u64) -> Segment {
    Segment::new(None, offset, size)
}

#[test]
fn segments_are_cut_from_the_file_and_decoded_in_order() {
    // junk, cpuid, junk, cpuid at offsets 0, 2, 4, 6
    let file = [0xff, 0xff, 0x0f, 0xa2, 0xee, 0xee, 0x0f, 0xa2];
    let mut decoder = Decoder::new(64, TaskCount::new());
    assert_eq!(decoder.read_segments(&file, &[segment(2, 2), segment(6, 2)]), Ok(()));
    let r = decoder.into_result();
    assert_eq!(pairs(&r), vec![(CPUID_FEATURE, 2)]);
}

#[test]
fn segment_past_the_end_is_a_short_read() {
    let file = [0x0f, 0xa2, 0x90];
    let mut decoder = Decoder::new(64, TaskCount::new());
    assert_eq!(decoder.read_segments(&file, &[segment(0, 2), segment(2, 2)]), Err(ReadError::ShortRead));
    let mut decoder = Decoder::new(64, TaskCount::new());
    assert_eq!(decoder.read_segments(&file, &[segment(u64::MAX, 2)]), Err(ReadError::ShortRead));
    let mut decoder = Decoder::new(64, TaskCount::new());
    assert_eq!(decoder.read_segments(&file, &[segment(0, 3)]), Ok(()));
}

#[test]
fn no_segments_decode_nothing() {
    let mut decoder = Decoder::new(64, TaskCount::new());
    assert_eq!(decoder.read_segments(&[0x0f, 0xa2], &[]), Ok(()));
    assert!(decoder.into_result().is_empty());
}

#[test]
fn nop_section_credits_only_the_base_feature() {
    let file = [0x90; 16];
    let mut decoder = Decoder::new(64, TaskCount::new());
    assert_eq!(decoder.read_segments(&file, &[segment(0, 16)]), Ok(()));
    let features = decoder.into_result();
    assert!(!has_cpuid_usage(&features));
    let names: Vec<String> = features.iter().map(|c| Feature::name(c.id)).collect();
    // the decoder lists the 8086 base set as what NOP requires
    assert_eq!(names, vec!["INTEL8086".to_string()]);
    assert_eq!(features[0].count, 16);
}
