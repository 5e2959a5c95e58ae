use xui::text::{
    byte_to_char_index, char_count, char_to_byte_offset, char_to_layout_offset,
    char_to_utf16_offset, text_offset_to_char, utf16_to_char_index, LayoutResidency, TextLayoutSlot,
    TextOffset, TextOffsetUnit,
};

#[test]
fn byte_offsets_follow_utf8_widths() {
    let text = "aé中😀b";
    assert_eq!(char_to_byte_offset(text, 0), 0);
    assert_eq!(char_to_byte_offset(text, 1), 1);
    assert_eq!(char_to_byte_offset(text, 2), 3);
    assert_eq!(char_to_byte_offset(text, 3), 6);
    assert_eq!(char_to_byte_offset(text, 4), 10);
    assert_eq!(char_to_byte_offset(text, 99), text.len());
}

#[test]
fn utf16_offsets_count_surrogate_pairs() {
    let text = "aé中😀b";
    assert_eq!(char_to_utf16_offset(text, 3), 3);
    assert_eq!(char_to_utf16_offset(text, 4), 5);
    assert_eq!(char_to_utf16_offset(text, 99), 6);
}

#[test]
fn byte_and_utf16_offsets_map_back_to_characters() {
    let text = "aé中😀b";
    assert_eq!(byte_to_char_index(text, 0), 0);
    assert_eq!(byte_to_char_index(text, 2), 2);
    assert_eq!(byte_to_char_index(text, 3), 2);
    assert_eq!(byte_to_char_index(text, 7), 4);
    assert_eq!(byte_to_char_index(text, 500), 5);
    assert_eq!(utf16_to_char_index(text, 4), 4);
    assert_eq!(utf16_to_char_index(text, 5), 4);
    assert_eq!(utf16_to_char_index(text, 100), 5);
}

#[test]
fn layout_offsets_round_trip() {
    let text = "héllo 😀 wörld";
    for unit in [TextOffsetUnit::Char, TextOffsetUnit::Utf8Byte, TextOffsetUnit::Utf16CodeUnit] {
        for k in 0..20 {
            let offset = char_to_layout_offset(text, k, unit);
            assert_eq!(offset.unit, unit);
            assert_eq!(text_offset_to_char(text, offset), k.min(char_count(text)));
        }
    }
    let char_offset = TextOffset { raw: 50, unit: TextOffsetUnit::Char };
    assert_eq!(text_offset_to_char(text, char_offset), 13);
}

#[test]
fn text_slots_and_residency() {
    assert_eq!(TextLayoutSlot::primary().get(), 0);
    assert_eq!(TextLayoutSlot::new(7).get(), 7);
    let residency = LayoutResidency { handle: 1, memory_cost: 64, pin_count: 0 };
    assert!(!residency.is_pinned());
    assert!(LayoutResidency { pin_count: 2, ..residency }.is_pinned());
}

#[test]
fn offsets_inside_a_character_round_up_and_past_the_end_give_the_count() {
    assert_eq!(byte_to_char_index("é", 1), 1);
    assert_eq!(char_to_byte_offset("héllo", 2), 3);
    assert_eq!(utf16_to_char_index("😀b", 1), 1);
    assert_eq!(char_to_utf16_offset("a😀b", 2), 3);
    assert_eq!(byte_to_char_index("héllo", 99), 5);
    assert_eq!(utf16_to_char_index("a😀b", 99), 3);
    assert_eq!(char_to_byte_offset("héllo", 99), "héllo".len());
    assert_eq!(char_to_utf16_offset("a😀b", 99), 4);
    for i in 0..8 {
        let n = 5usize;
        assert_eq!(byte_to_char_index("héllo", char_to_byte_offset("héllo", i)), i.min(n));
    }
}
