use compressed_vec::error::CodingError;
use compressed_vec::nibblepack::{nibble_pack8, pack_u64, unpack_group, unpack_u64};
use compressed_vec::section::{
    unpack_u32_section, FixedSectEnum, FixedSectIterator, FixedSection, FixedSectionWriter,
    NibblePackU32MedFixedSect, NibblePackU64MedFixedSect, NullFixedSect, SectionType,
    SectionWriter, U32_256Sink,
};

fn fill_eight(writebuf: &mut [u8], _elements_left: usize) -> Result<(u16, u16), CodingError> {
    if writebuf.len() < 8 {
        Err(CodingError::NotEnoughSpace)
    } else {
        for n in 0..8 {
            writebuf[n] = 0xff;
        }
        Ok((8, 8))
    }
}

fn collect_sections(bytes: &[u8]) -> Vec<(FixedSectEnum, &[u8])> {
    let mut it = FixedSectIterator::new(bytes);
    let mut out = Vec::new();
    while let Some(item) = it.next() {
        out.push(item);
    }
    out
}

#[test]
fn test_sectwriter_cannot_add_sect_header() {
    let mut buf = [0u8; 4];
    let mut writer = SectionWriter::new(&mut buf, 256);

    let res = writer.add_64kb(SectionType::Null, |writebuf: &mut [u8], _| {
        if writebuf.len() < 8 {
            Err(CodingError::NotEnoughSpace)
        } else {
            for n in 0..8 {
                writebuf[n] = 0xff;
            }
            Ok((8, 8))
        }
    });

    assert!(res.is_err());
}

#[test]
fn test_sectwriter_fill_section_normal() {
    let mut buf = [0u8; 20];
    let mut writer = SectionWriter::new(&mut buf, 256);

    let res = writer.add_64kb(SectionType::Null, |writebuf: &mut [u8], _| {
        if writebuf.len() < 8 {
            Err(CodingError::NotEnoughSpace)
        } else {
            for n in 0..8 {
                writebuf[n] = 0xff;
            }
            Ok((8, 8))
        }
    });

    assert_eq!(res, Ok((8, 8)));
    assert_eq!(writer.cur_pos(), 13);
}

#[test]
fn test_npu64med_write_error_no_room() {
    let mut buf = [0u8; 2];
    let data: Vec<u64> = (0..256).collect();

    let res = NibblePackU64MedFixedSect::write(&mut buf, 0, &data[..]);
    assert_eq!(res, Err(CodingError::NotEnoughSpace));

    let mut buf = [0u8; 100];

    let res = NibblePackU64MedFixedSect::write(&mut buf, 0, &data[..]);
    assert_eq!(res, Err(CodingError::NotEnoughSpace));
}

#[test]
fn test_fixedsectiterator_write_and_read() {
    let mut buf = [0u8; 1024];
    let data: Vec<u64> = (0..256).collect();
    let mut off = 0;

    off = NullFixedSect::write(&mut buf, off).unwrap();
    assert_eq!(off, 1);

    off = NibblePackU64MedFixedSect::write(&mut buf, off, &data[..]).unwrap();

    let sections = collect_sections(&buf[0..off]);

    assert_eq!(sections.len(), 2);
    let (sect, _sect_bytes) = &sections[0];
    assert_eq!(sect.num_bytes(), 1);
    match sect {
        FixedSectEnum::NullFixedSect(..) => {}
        _ => panic!("Got the wrong sect: {:?}", sect),
    }

    let (sect, sect_bytes) = &sections[1];
    assert!(sect.num_bytes() <= sect_bytes.len());
    if let FixedSectEnum::NibblePackU64MedFixedSect(inner_sect) = sect {
        let unpacked_data: Vec<u64> = inner_sect.iter(sect_bytes).unwrap();
        assert_eq!(unpacked_data, data);
    } else {
        panic!("Wrong type obtained at sections[1]")
    }
}

#[test]
fn test_fixedsect_u32_write_and_decode() {
    let mut buf = [0u8; 1024];
    let data: Vec<u32> = (0..256).collect();
    let mut off = 0;

    off = NibblePackU32MedFixedSect::write(&mut buf, off, &data[..]).unwrap();

    let values = unpack_u32_section(&buf[..off]);
    assert_eq!(values.iter().count(), 256);
    assert_eq!(values.iter().map(|&x| x).collect::<Vec<u32>>(), data);
}

#[test]
fn section_type_bytes() {
    assert_eq!(SectionType::Null.as_num(), 0);
    assert_eq!(SectionType::NibblePackedU64Medium.as_num(), 1);
    assert_eq!(SectionType::NibblePackedU32Medium.as_num(), 2);
    assert_eq!(SectionType::try_from(1), Ok(SectionType::NibblePackedU64Medium));
    assert_eq!(SectionType::try_from(2), Ok(SectionType::NibblePackedU32Medium));
    assert_eq!(SectionType::try_from(3), Err(CodingError::InvalidSectionType(3)));
}

#[test]
fn writer_header_is_rewritten_in_place() {
    let mut buf = [0u8; 20];
    let mut writer = SectionWriter::new(&mut buf, 256);
    assert_eq!(writer.add_64kb(SectionType::NibblePackedU64Medium, fill_eight), Ok((8, 8)));
    drop(writer);
    assert_eq!(&buf[0..5], &[8, 0, 8, 0, 1]);
    assert_eq!(&buf[5..13], &[0xff; 8]);
}

#[test]
fn writer_too_small_for_header() {
    let mut buf = [0u8; 4];
    let mut writer = SectionWriter::new(&mut buf, 256);
    assert_eq!(writer.add_64kb(SectionType::Null, fill_eight), Err(CodingError::NotEnoughSpace));
    assert_eq!(writer.cur_pos(), 0);
}

#[test]
fn writer_filler_refusing_after_rollover() {
    let mut buf = [0u8; 30];
    let mut writer = SectionWriter::new(&mut buf, 256);
    let res = writer.add_64kb(SectionType::Null, |_w: &mut [u8], _e| Err(CodingError::NotEnoughSpace));
    assert_eq!(res, Err(CodingError::NotEnoughSpace));
    assert_eq!(writer.cur_pos(), 10);
}

#[test]
fn writer_rolls_over_at_element_cap() {
    let mut buf = [0u8; 40];
    let mut writer = SectionWriter::new(&mut buf, 8);
    let filler = |w: &mut [u8], elements_left: usize| {
        if w.len() < 8 || elements_left < 8 {
            Err(CodingError::NotEnoughSpace)
        } else {
            for n in 0..8 {
                w[n] = 7;
            }
            Ok((8, 8))
        }
    };
    assert_eq!(writer.add_64kb(SectionType::Null, filler), Ok((8, 8)));
    assert_eq!(writer.cur_pos(), 13);
    assert_eq!(writer.add_64kb(SectionType::Null, filler), Ok((8, 8)));
    assert_eq!(writer.cur_pos(), 26);
    drop(writer);
    assert_eq!(&buf[0..5], &[8, 0, 8, 0, 0]);
    assert_eq!(&buf[13..18], &[8, 0, 8, 0, 0]);
}

#[test]
fn writer_propagates_other_filler_errors() {
    let mut buf = [0u8; 40];
    let mut writer = SectionWriter::new(&mut buf, 256);
    assert_eq!(writer.add_64kb(SectionType::Null, fill_eight), Ok((8, 8)));
    let res = writer.add_64kb(SectionType::Null, |_w: &mut [u8], _e| Err(CodingError::InputTooShort));
    assert_eq!(res, Err(CodingError::InputTooShort));
    assert_eq!(writer.cur_pos(), 13);
}

#[test]
fn writer_positions_never_decrease() {
    let mut buf = [0u8; 64];
    let mut writer = SectionWriter::new(&mut buf, 256);
    let mut last = writer.cur_pos();
    for _ in 0..5 {
        let _ = writer.add_64kb(SectionType::Null, fill_eight);
        assert!(writer.cur_pos() >= last);
        last = writer.cur_pos();
    }
    assert_eq!(last, 45);
}

#[test]
fn null_write_needs_room() {
    let mut buf = [0u8; 0];
    assert_eq!(NullFixedSect::write(&mut buf, 0), Err(CodingError::NotEnoughSpace));
    let mut buf = [9u8; 3];
    assert_eq!(NullFixedSect::write(&mut buf, 2), Ok(3));
    assert_eq!(buf, [9, 9, 0]);
}

#[test]
fn two_null_sections_are_separate() {
    let mut buf = [0xaau8; 2];
    let off = NullFixedSect::write(&mut buf, 0).unwrap();
    let off = NullFixedSect::write(&mut buf, off).unwrap();
    assert_eq!(off, 2);
    let sections = collect_sections(&buf[..]);
    assert_eq!(sections.len(), 2);
    for (sect, _) in &sections {
        assert!(sect.is_null());
        assert_eq!(sect.num_bytes(), 1);
        assert_eq!(sect.num_elements(), 256);
    }
}

#[test]
fn length_field_matches_payload() {
    let mut buf = [0u8; 1024];
    let data: Vec<u64> = (0..256).collect();
    let off = NibblePackU64MedFixedSect::write(&mut buf, 0, &data[..]).unwrap();
    assert_eq!(off, 315);
    assert_eq!(buf[0], 1);
    assert_eq!(u16::from_le_bytes([buf[1], buf[2]]) as usize, off - 3);
    assert_eq!(
        NibblePackU64MedFixedSect::try_from(&buf[..off]),
        Ok(NibblePackU64MedFixedSect { encoded_bytes: 312 })
    );
}

#[test]
fn iterator_conserves_sections_and_bytes() {
    let mut buf = [0u8; 4096];
    let wide: Vec<u64> = (0..256).map(|i| (i as u64) << 40).collect();
    let narrow: Vec<u32> = (0..256).map(|i| u32::MAX - i as u32).collect();
    let mut off = NullFixedSect::write(&mut buf, 0).unwrap();
    off = NibblePackU64MedFixedSect::write(&mut buf, off, &wide[..]).unwrap();
    off = NibblePackU32MedFixedSect::write(&mut buf, off, &narrow[..]).unwrap();
    off = NullFixedSect::write(&mut buf, off).unwrap();
    let sections = collect_sections(&buf[..off]);
    assert_eq!(sections.len(), 4);
    let total: usize = sections.iter().map(|(s, _)| s.num_bytes()).sum();
    assert_eq!(total, off);
    if let FixedSectEnum::NibblePackU64MedFixedSect(s) = &sections[1].0 {
        assert_eq!(s.iter(sections[1].1).unwrap(), wide);
    } else {
        panic!("expected a u64 section");
    }
    let mut sink = U32_256Sink::new();
    NibblePackU32MedFixedSect::decode_to_sink(sections[2].1, &mut sink).unwrap();
    assert_eq!(sink.values, narrow);
}

#[test]
fn iterator_stops_on_trailing_garbage() {
    let mut buf = [0u8; 8];
    NullFixedSect::write(&mut buf, 0).unwrap();
    buf[1] = 9;
    let sections = collect_sections(&buf[..]);
    assert_eq!(sections.len(), 1);
}

#[test]
fn round_trip_extreme_u64_values() {
    let mut data: Vec<u64> = Vec::new();
    for i in 0..256u64 {
        data.push(match i % 4 {
            0 => 0,
            1 => u64::MAX - i,
            2 => i << 60,
            _ => i * 0x1_0000,
        });
    }
    let mut buf = vec![0u8; 4096];
    let off = NibblePackU64MedFixedSect::write(&mut buf, 5, &data[..]).unwrap();
    let sect = NibblePackU64MedFixedSect::try_from(&buf[5..off]).unwrap();
    assert_eq!(sect.num_bytes(), off - 5);
    assert_eq!(sect.iter(&buf[5..]).unwrap(), data);
}

#[test]
fn round_trip_all_zero_u32() {
    let data = vec![0u32; 256];
    let mut buf = [0u8; 64];
    let off = NibblePackU32MedFixedSect::write(&mut buf, 0, &data[..]).unwrap();
    assert_eq!(off, 3 + 32);
    assert_eq!(unpack_u32_section(&buf[..off]), data);
}

#[test]
fn fixed_sect_errors() {
    assert_eq!(FixedSectEnum::try_from(&[]), Err(CodingError::InputTooShort));
    assert_eq!(FixedSectEnum::try_from(&[7]), Err(CodingError::InvalidSectionType(7)));
    assert_eq!(FixedSectEnum::try_from(&[1, 0]), Err(CodingError::InputTooShort));
    assert_eq!(FixedSectEnum::try_from(&[2, 10, 0, 1, 2]), Err(CodingError::BadLengthField));
    assert_eq!(
        FixedSectEnum::try_from(&[2, 2, 0, 0, 0]),
        Ok(FixedSectEnum::NibblePackU32MedFixedSect(NibblePackU32MedFixedSect { encoded_bytes: 2 }))
    );
    assert_eq!(
        NibblePackU32MedFixedSect::try_from(&[2, 3, 0, 0, 0]),
        Err(CodingError::BadLengthField)
    );
}

#[test]
fn decode_truncated_section_fails() {
    let mut buf = [0u8; 1024];
    let data: Vec<u32> = (0..256).collect();
    let off = NibblePackU32MedFixedSect::write(&mut buf, 0, &data[..]).unwrap();
    let mut sink = U32_256Sink::new();
    assert_eq!(
        NibblePackU32MedFixedSect::decode_to_sink(&buf[..off - 1], &mut sink),
        Err(CodingError::InputTooShort)
    );
    let sect = NibblePackU64MedFixedSect { encoded_bytes: 0 };
    assert_eq!(sect.iter(&buf[..10]), Err(CodingError::InputTooShort));
}

#[test]
fn nibble_pack8_exact_bytes() {
    let mut out = [0xeeu8; 8];
    assert_eq!(nibble_pack8(&[0; 8], 0, &mut out, 0), Ok(1));
    assert_eq!(out[0], 0);

    let mut out = [0u8; 8];
    assert_eq!(nibble_pack8(&[1, 0, 0, 0, 0, 0, 0, 0], 0, &mut out, 0), Ok(3));
    assert_eq!(&out[0..3], &[0x01, 0x00, 0x01]);

    let mut out = [0u8; 8];
    assert_eq!(nibble_pack8(&[0, 0x12, 0, 3, 0, 0, 0, 0], 0, &mut out, 0), Ok(4));
    assert_eq!(&out[0..4], &[0x0a, 0x10, 0x12, 0x03]);

    let mut out = [0u8; 8];
    assert_eq!(nibble_pack8(&[0x100, 0x200, 0, 0, 0, 0, 0, 0], 0, &mut out, 0), Ok(3));
    assert_eq!(&out[0..3], &[0x03, 0x02, 0x21]);

    let mut out = [0u8; 2];
    assert_eq!(nibble_pack8(&[5; 8], 0, &mut out, 0), Err(CodingError::NotEnoughSpace));
    assert_eq!(out, [0, 0]);
}

#[test]
fn nibble_groups_round_trip() {
    let values: Vec<u64> = vec![0, 1, 2, 0xffff_ffff_ffff_ffff, 16, 0, 0x100, 42, 7, 7, 7, 7, 0, 0, 0, 1];
    let mut out = [0u8; 200];
    let end = pack_u64(&values[..], &mut out, 3).unwrap();
    let (decoded, next) = unpack_u64(&out[..], 3, 16).unwrap();
    assert_eq!(decoded, values);
    assert_eq!(next, end);
    let (first, after) = unpack_group(&out[..], 3).unwrap();
    assert_eq!(first, values[0..8].to_vec());
    assert!(after < end);
    assert_eq!(unpack_group(&out[..4], 3), Err(CodingError::InputTooShort));
}

#[test]
fn writer_rollover_header_does_not_fit() {
    let mut buf = [0u8; 8];
    let mut writer = SectionWriter::new(&mut buf, 256);
    assert_eq!(writer.add_64kb(SectionType::Null, fill_eight), Err(CodingError::NotEnoughSpace));
    assert_eq!(writer.cur_pos(), 5);
}

#[test]
fn writer_rollover_then_refused_again() {
    let mut buf = [0u8; 12];
    let mut writer = SectionWriter::new(&mut buf, 256);
    assert_eq!(writer.add_64kb(SectionType::Null, fill_eight), Err(CodingError::NotEnoughSpace));
    assert_eq!(writer.cur_pos(), 10);
    drop(writer);
    assert_eq!(&buf[0..10], &[0, 0, 0, 0, 0, 0, 0, 0, 0, 0]);
}

#[test]
fn medium_write_fails_only_when_it_does_not_fit() {
    let data: Vec<u64> = (0..256).collect();
    let mut buf = [0u8; 315];
    assert_eq!(NibblePackU64MedFixedSect::write(&mut buf, 0, &data[..]), Ok(315));
    let mut buf = [7u8; 314];
    assert_eq!(NibblePackU64MedFixedSect::write(&mut buf, 0, &data[..]), Err(CodingError::NotEnoughSpace));
    assert_eq!(&buf[1..3], &[7, 7]);
}

#[test]
fn fresh_writer_other_filler_error_leaves_it_empty() {
    let mut buf = [0u8; 20];
    let mut writer = SectionWriter::new(&mut buf, 256);
    let res = writer.add_64kb(SectionType::Null, |_w: &mut [u8], _e| Err(CodingError::InputTooShort));
    assert_eq!(res, Err(CodingError::InputTooShort));
    assert_eq!(writer.cur_pos(), 0);
    assert_eq!(writer.add_64kb(SectionType::Null, fill_eight), Ok((8, 8)));
    assert_eq!(writer.cur_pos(), 13);
}

#[test]
fn writer_fill_normal_exact_bytes() {
    let mut buf = [0u8; 20];
    let mut writer = SectionWriter::new(&mut buf, 256);
    assert_eq!(writer.add_64kb(SectionType::Null, fill_eight), Ok((8, 8)));
    drop(writer);
    assert_eq!(
        buf,
        [8, 0, 8, 0, 0, 0xff, 0xff, 0xff, 0xff, 0xff, 0xff, 0xff, 0xff, 0, 0, 0, 0, 0, 0, 0]
    );
}
