use alignator::bridge::{line_of_udi, parse_lrc as bridge_parse_lrc, to_enhanced_lrc, udi_line_of};
use alignator::parse_lrc;

#[test]
fn records_carry_the_same_lines() {
    let lrc = "[00:00.00] Lead (backing voice) tail\n[00:04.00] Next";
    let core = parse_lrc(lrc, "en");
    let records = bridge_parse_lrc(lrc.to_string(), "en".to_string());
    assert_eq!(records.len(), core.len());
    for (r, l) in records.iter().zip(core.iter()) {
        assert_eq!(&line_of_udi(r), l);
    }
    let back = udi_line_of(&core[1]);
    assert_eq!(back.braced_text.as_deref(), Some("(backing voice)"));
    assert!(back.is_right_aligned);
}

#[test]
fn records_format_as_lines_do() {
    let lrc = "[00:01.00] <00:01.00> Hello <00:01.50> world";
    let core = parse_lrc(lrc, "en");
    let records = bridge_parse_lrc(lrc.to_string(), "auto".to_string());
    assert_eq!(to_enhanced_lrc(records), alignator::formatters::to_enhanced_lrc(&core));
}
