//! Where each value stands in a parameter image, offset by offset.

use vstd::prelude::*;

use crate::assets::algorithm::AlgorithmView;
use crate::assets::configuration::ConfigurationView;
use crate::assets::device_db::DeviceRecordView;
use crate::assets::package_map::PackageRecordView;
use crate::bytes::{
    half, law_fields_are_low_byte_first, law_numbers_are_stored_low_byte_first, le16, le32, word,
    zeros,
};
use crate::parameters::{
    bus_width, capability_of, code_of, derived_range_bytes, file_name_start, folded_capabilities,
    image_body, image_header, image_identity, image_project, image_settings, image_titles,
    is_separator, kept_path, lemma_profile_device_length, lemma_profile_length,
    lemma_profile_schedule_length, lemma_profile_start_length, lemma_text_area, maximum_end,
    preparatory_steps, prepared_project, profile_device, profile_schedule, profile_start,
    programmed_end, project_profile, region_bit, region_masks, scheduled_codes, sealed, text_area,
    AutomaticInputsView, ParameterOperation, PreparedProjectView,
};
use crate::text::bytes_of_chars;

verus! {

/// A part of an image is a part of a source.
pub open spec fn copies(image: Seq<u8>, at: int, source: Seq<u8>, from: int, count: int) -> bool {
    forall|i: int| 0 <= i < count ==> #[trigger] image[at + i] == source[from + i]
}

/// A part of an image is zero.
pub open spec fn is_blank(image: Seq<u8>, from: int, to: int) -> bool {
    forall|i: int| from <= i < to ==> #[trigger] image[i] == 0
}

/// A field holds a text as far as it fits in front of a zero, and zeros behind it.
pub open spec fn holds_text(image: Seq<u8>, at: int, capacity: int, text: Seq<u8>) -> bool {
    forall|i: int|
        0 <= i < capacity ==> #[trigger] image[at + i] == if i < text.len() && i < capacity - 1 {
            text[i]
        } else {
            0
        }
}

proof fn lemma_text(value: Seq<u8>, capacity: nat)
    requires
        capacity > 0,
    ensures
        text_area(value, capacity).len() == capacity,
        holds_text(text_area(value, capacity), 0, capacity as int, value),
{
    lemma_text_area(value, capacity);
}

proof fn lemma_header(profile: Seq<u8>)
    requires
        profile.len() == 0xa28,
    ensures
        ({
            let part = image_header(profile);
            &&& part.len() == 0x10
            &&& part[0] == 0x53 && part[1] == 0x50 && part[2] == 0x52 && part[3] == 0x4a
            &&& word(part, 4) == 0x0161_0001
            &&& half(part, 8) == 0x0100
            &&& half(part, 0xa) == if profile[0x7f0] == 0 {
                0x0100int
            } else {
                0x0132int
            }
            &&& half(part, 0xc) == if word(profile, 0x124) > 0x0400_0000 || profile[0x72e] / 32 % 2
                == 1 {
                0x0100int
            } else {
                0int
            }
            &&& half(part, 0xe) == 0
        }),
{
    let large = profile[0x72e];
    assert((large & 0x20 != 0) == (large / 32 % 2 == 1)) by (bit_vector);
    law_fields_are_low_byte_first(profile, 0x124);
    law_numbers_are_stored_low_byte_first(0x0100, 0x0161_0001);
    law_numbers_are_stored_low_byte_first(0x0132, 0);
    law_numbers_are_stored_low_byte_first(0, 0);
}

#[verifier::rlimit(60)]
proof fn lemma_titles(
    profile: Seq<u8>,
    texts: Seq<Seq<u8>>,
    device_record: Seq<u8>,
    local_time: Seq<u8>,
)
    requires
        profile.len() == 0xa28,
        device_record.len() == 0x90,
        local_time.len() == 7,
    ensures
        ({
            let part = image_titles(profile, texts, device_record, local_time);
            &&& part.len() == 0x310
            &&& copies(part, 0, local_time, 0, 7)
            &&& is_blank(part, 7, 0x10)
            &&& holds_text(part, 0x10, 0x20, texts[0])
            &&& holds_text(part, 0x30, 0x20, texts[1])
            &&& holds_text(part, 0x50, 0x20, texts[2])
            &&& copies(part, 0x70, profile, 0xd4, 4)
            &&& copies(part, 0x74, profile, 0x466, 2)
            &&& part[0x76] == profile[0x464]
            &&& is_blank(part, 0x77, 0x80)
            &&& copies(part, 0x80, device_record, 0, 0x90)
            &&& is_blank(part, 0x110, 0x180)
            &&& holds_text(part, 0x180, 0x104, kept_path(texts[3], 0x104))
            &&& is_blank(part, 0x284, 0x28f)
            &&& part[0x28f] == profile[0x72e]
            &&& holds_text(part, 0x290, 0x20, texts[4])
            &&& holds_text(part, 0x2b0, 0x20, texts[5])
            &&& holds_text(part, 0x2d0, 0x40, texts[6])
        }),
{
    lemma_text(texts[0], 0x20);
    lemma_text(texts[1], 0x20);
    lemma_text(texts[2], 0x20);
    lemma_text(kept_path(texts[3], 0x104), 0x104);
    lemma_text(texts[4], 0x20);
    lemma_text(texts[5], 0x20);
    lemma_text(texts[6], 0x40);
    let part = image_titles(profile, texts, device_record, local_time);
    assert forall|i: int| 0 <= i < 0x20 implies #[trigger] part[0x10 + i] == text_area(
        texts[0],
        0x20,
    )[0 + i] by {}
    assert forall|i: int| 0 <= i < 0x20 implies #[trigger] part[0x30 + i] == text_area(
        texts[1],
        0x20,
    )[0 + i] by {}
    assert forall|i: int| 0 <= i < 0x20 implies #[trigger] part[0x50 + i] == text_area(
        texts[2],
        0x20,
    )[0 + i] by {}
    assert forall|i: int| 0 <= i < 0x104 implies #[trigger] part[0x180 + i] == text_area(
        kept_path(texts[3], 0x104),
        0x104,
    )[0 + i] by {}
    assert forall|i: int| 0 <= i < 0x20 implies #[trigger] part[0x290 + i] == text_area(
        texts[4],
        0x20,
    )[0 + i] by {}
    assert forall|i: int| 0 <= i < 0x20 implies #[trigger] part[0x2b0 + i] == text_area(
        texts[5],
        0x20,
    )[0 + i] by {}
    assert forall|i: int| 0 <= i < 0x40 implies #[trigger] part[0x2d0 + i] == text_area(
        texts[6],
        0x40,
    )[0 + i] by {}
}

#[verifier::rlimit(60)]
proof fn lemma_settings(profile: Seq<u8>, texts: Seq<Seq<u8>>)
    requires
        profile.len() == 0xa28,
    ensures
        ({
            let part = image_settings(profile, texts);
            &&& part.len() == 0x220
            &&& part[0] == profile[0x73c]
            &&& part[1] == profile[0x73d]
            &&& part[2] == profile[0x504]
            &&& part[3] == 0
            &&& copies(part, 4, profile, 0x7c4, 4)
            &&& copies(part, 8, profile, 0x7c2, 2)
            &&& is_blank(part, 0xa, 0x10)
            &&& copies(part, 0x10, profile, 0x7f0, 0x11)
            &&& is_blank(part, 0x21, 0x28)
            &&& holds_text(part, 0x28, 0x104, texts[7])
            &&& copies(part, 0x12c, profile, 0xa0c, 4)
            &&& copies(part, 0x130, profile, 0x73e, 0x84)
            &&& is_blank(part, 0x1b4, 0x1c0)
            &&& part[0x1c0] == profile[0x505]
            &&& is_blank(part, 0x1c1, 0x1c4)
            &&& word(part, 0x1c4) == folded_capabilities(profile.subrange(0x516, 0x526))
            &&& copies(part, 0x1c8, profile, 0x516, 0x10)
            &&& copies(part, 0x1d8, profile, 0x506, 0x10)
            &&& copies(part, 0x1e8, profile, 0x7e8, 5)
            &&& is_blank(part, 0x1ed, 0x200)
            &&& copies(part, 0x200, profile, 0x7c8, 0x20)
        }),
{
    lemma_text(texts[7], 0x104);
    let part = image_settings(profile, texts);
    let folded = folded_capabilities(profile.subrange(0x516, 0x526));
    law_numbers_are_stored_low_byte_first(0, folded);
    assert forall|i: int| 0 <= i < 0x104 implies #[trigger] part[0x28 + i] == text_area(
        texts[7],
        0x104,
    )[0 + i] by {}
    assert(part[0x1c4] == le32(folded)[0] && part[0x1c5] == le32(folded)[1] && part[0x1c6] == le32(
        folded,
    )[2] && part[0x1c7] == le32(folded)[3]);
}

#[verifier::rlimit(60)]
proof fn lemma_identity_and_project(
    profile: Seq<u8>,
    algorithm: AlgorithmView,
    start: int,
    length: int,
    data_crc: u32,
    derived_ranges: Seq<u8>,
)
    requires
        profile.len() == 0xa28,
        derived_ranges.len() == 0x18,
        algorithm.valid(),
        0 <= start <= u32::MAX,
        0 <= length <= u32::MAX,
    ensures
        ({
            let part = image_identity(algorithm);
            &&& part.len() == 0x20
            &&& holds_text(part, 0, 0x10, bytes_of_chars(algorithm.name))
            &&& copies(part, 0x10, algorithm.timestamp, 0, 8)
            &&& word(part, 0x18) == algorithm.payload.len()
            &&& word(part, 0x1c) == algorithm.payload_crc32
        }),
        ({
            let part = image_project(profile, start, length, data_crc, derived_ranges);
            &&& part.len() == 0x29c
            &&& copies(part, 0, profile, 0x730, 0xc)
            &&& word(part, 0xc) == start
            &&& word(part, 0x10) == length
            &&& word(part, 0x14) == data_crc
            &&& copies(part, 0x18, derived_ranges, 0, 0x18)
            &&& is_blank(part, 0x30, 0x29c)
        }),
{
    lemma_text(bytes_of_chars(algorithm.name), 0x10);
    let size = algorithm.payload.len() as u32;
    law_numbers_are_stored_low_byte_first(0, size);
    law_numbers_are_stored_low_byte_first(0, algorithm.payload_crc32);
    law_numbers_are_stored_low_byte_first(0, start as u32);
    law_numbers_are_stored_low_byte_first(0, length as u32);
    law_numbers_are_stored_low_byte_first(0, data_crc);
    let part = image_identity(algorithm);
    let area = text_area(bytes_of_chars(algorithm.name), 0x10);
    assert forall|i: int| 0 <= i < 0x10 implies #[trigger] part[0 + i] == area[0 + i] by {}
    assert(word(part, 0x18) == word(le32(size), 0)) by {
        assert(part[0x18] == le32(size)[0] && part[0x19] == le32(size)[1] && part[0x1a]
            == le32(size)[2] && part[0x1b] == le32(size)[3]);
    }
    assert(word(part, 0x1c) == word(le32(algorithm.payload_crc32), 0)) by {
        let crc = le32(algorithm.payload_crc32);
        assert(part[0x1c] == crc[0] && part[0x1d] == crc[1] && part[0x1e] == crc[2]
            && part[0x1f] == crc[3]);
    }
    let tail = image_project(profile, start, length, data_crc, derived_ranges);
    assert(word(tail, 0xc) == word(le32(start as u32), 0));
    assert(word(tail, 0x10) == word(le32(length as u32), 0));
    assert(word(tail, 0x14) == word(le32(data_crc), 0));
}

/// Where the fields of an image come from. Each value of the runtime profile, each
/// text, the device record, the identity of the algorithm, the range of the data
/// and its CRC32, the local time and the derived ranges stand at their own offset,
/// and every other byte is zero.
#[verifier::rlimit(90)]
pub proof fn law_image_layout(
    profile: Seq<u8>,
    texts: Seq<Seq<u8>>,
    device_record: Seq<u8>,
    algorithm: AlgorithmView,
    start: int,
    length: int,
    data_crc: u32,
    local_time: Seq<u8>,
    derived_ranges: Seq<u8>,
)
    requires
        profile.len() == 0xa28,
        device_record.len() == 0x90,
        local_time.len() == 7,
        derived_ranges.len() == 0x18,
        algorithm.valid(),
        0 <= start <= u32::MAX,
        0 <= length <= u32::MAX,
    ensures
        ({
            let image = sealed(
                image_body(
                    profile,
                    texts,
                    device_record,
                    algorithm,
                    start,
                    length,
                    data_crc,
                    local_time,
                    derived_ranges,
                ),
            );
            &&& image.len() == 0x800
            &&& image[0] == 0x53 && image[1] == 0x50 && image[2] == 0x52 && image[3] == 0x4a
            &&& word(image, 0x4) == 0x0161_0001
            &&& half(image, 0x8) == 0x0100
            &&& half(image, 0xa) == if profile[0x7f0] == 0 {
                0x0100int
            } else {
                0x0132int
            }
            &&& half(image, 0xc) == if word(profile, 0x124) > 0x0400_0000 || profile[0x72e] / 32 % 2
                == 1 {
                0x0100int
            } else {
                0int
            }
            &&& half(image, 0xe) == 0
            &&& copies(image, 0x10, local_time, 0, 7)
            &&& is_blank(image, 0x17, 0x20)
            &&& holds_text(image, 0x20, 0x20, texts[0])
            &&& holds_text(image, 0x40, 0x20, texts[1])
            &&& holds_text(image, 0x60, 0x20, texts[2])
            &&& copies(image, 0x80, profile, 0xd4, 4)
            &&& copies(image, 0x84, profile, 0x466, 2)
            &&& image[0x86] == profile[0x464]
            &&& is_blank(image, 0x87, 0x90)
            &&& copies(image, 0x90, device_record, 0, 0x90)
            &&& is_blank(image, 0x120, 0x190)
            &&& holds_text(image, 0x190, 0x104, kept_path(texts[3], 0x104))
            &&& is_blank(image, 0x294, 0x29f)
            &&& image[0x29f] == profile[0x72e]
            &&& holds_text(image, 0x2a0, 0x20, texts[4])
            &&& holds_text(image, 0x2c0, 0x20, texts[5])
            &&& holds_text(image, 0x2e0, 0x40, texts[6])
            &&& image[0x320] == profile[0x73c]
            &&& image[0x321] == profile[0x73d]
            &&& image[0x322] == profile[0x504]
            &&& image[0x323] == 0
            &&& copies(image, 0x324, profile, 0x7c4, 4)
            &&& copies(image, 0x328, profile, 0x7c2, 2)
            &&& is_blank(image, 0x32a, 0x330)
            &&& copies(image, 0x330, profile, 0x7f0, 0x11)
            &&& is_blank(image, 0x341, 0x348)
            &&& holds_text(image, 0x348, 0x104, texts[7])
            &&& copies(image, 0x44c, profile, 0xa0c, 4)
            &&& copies(image, 0x450, profile, 0x73e, 0x84)
            &&& is_blank(image, 0x4d4, 0x4e0)
            &&& image[0x4e0] == profile[0x505]
            &&& is_blank(image, 0x4e1, 0x4e4)
            &&& word(image, 0x4e4) == folded_capabilities(profile.subrange(0x516, 0x526))
            &&& copies(image, 0x4e8, profile, 0x516, 0x10)
            &&& copies(image, 0x4f8, profile, 0x506, 0x10)
            &&& copies(image, 0x508, profile, 0x7e8, 5)
            &&& is_blank(image, 0x50d, 0x520)
            &&& copies(image, 0x520, profile, 0x7c8, 0x20)
            &&& holds_text(image, 0x540, 0x10, bytes_of_chars(algorithm.name))
            &&& copies(image, 0x550, algorithm.timestamp, 0, 8)
            &&& word(image, 0x558) == algorithm.payload.len()
            &&& word(image, 0x55c) == algorithm.payload_crc32
            &&& copies(image, 0x560, profile, 0x730, 0xc)
            &&& word(image, 0x56c) == start
            &&& word(image, 0x570) == length
            &&& word(image, 0x574) == data_crc
            &&& copies(image, 0x578, derived_ranges, 0, 0x18)
            &&& is_blank(image, 0x590, 0x7fc)
        }),
{
    let header = image_header(profile);
    let titles = image_titles(profile, texts, device_record, local_time);
    let settings = image_settings(profile, texts);
    let identity = image_identity(algorithm);
    let project = image_project(profile, start, length, data_crc, derived_ranges);
    let image = sealed(
        image_body(
            profile,
            texts,
            device_record,
            algorithm,
            start,
            length,
            data_crc,
            local_time,
            derived_ranges,
        ),
    );
    lemma_header(profile);
    lemma_titles(profile, texts, device_record, local_time);
    lemma_settings(profile, texts);
    lemma_identity_and_project(profile, algorithm, start, length, data_crc, derived_ranges);
    assert(forall|i: int| 0 <= i < 0x10 ==> #[trigger] image[i] == header[i]);
    assert(forall|i: int| 0x10 <= i < 0x320 ==> #[trigger] image[i] == titles[i - 0x10]);
    assert(forall|i: int| 0x320 <= i < 0x540 ==> #[trigger] image[i] == settings[i - 0x320]);
    assert(forall|i: int| 0x540 <= i < 0x560 ==> #[trigger] image[i] == identity[i - 0x540]);
    assert(forall|i: int| 0x560 <= i < 0x7fc ==> #[trigger] image[i] == project[i - 0x560]);
    lemma_moved_titles(image, titles, profile, texts, device_record, local_time);
    lemma_moved_settings(image, settings, profile, texts);
    assert forall|i: int| 0 <= i < 0x10 implies #[trigger] image[0x540 + i] == identity[0 + i] by {}
    assert forall|i: int| 0 <= i < 8 implies #[trigger] image[0x550 + i] == identity[0x10 + i] by {}
    assert forall|i: int| 0 <= i < 0xc implies #[trigger] image[0x560 + i] == project[0 + i] by {}
    assert forall|i: int| 0 <= i < 0x18 implies #[trigger] image[0x578 + i] == project[0x18 + i] by {}
}

#[verifier::rlimit(60)]
proof fn lemma_moved_titles(
    image: Seq<u8>,
    titles: Seq<u8>,
    profile: Seq<u8>,
    texts: Seq<Seq<u8>>,
    device_record: Seq<u8>,
    local_time: Seq<u8>,
)
    requires
        profile.len() == 0xa28,
        device_record.len() == 0x90,
        local_time.len() == 7,
        titles == image_titles(profile, texts, device_record, local_time),
        forall|i: int| 0x10 <= i < 0x320 ==> #[trigger] image[i] == titles[i - 0x10],
    ensures
        copies(image, 0x10, local_time, 0, 7),
        holds_text(image, 0x20, 0x20, texts[0]),
        holds_text(image, 0x40, 0x20, texts[1]),
        holds_text(image, 0x60, 0x20, texts[2]),
        copies(image, 0x80, profile, 0xd4, 4),
        copies(image, 0x84, profile, 0x466, 2),
        copies(image, 0x90, device_record, 0, 0x90),
        holds_text(image, 0x190, 0x104, kept_path(texts[3], 0x104)),
        holds_text(image, 0x2a0, 0x20, texts[4]),
        holds_text(image, 0x2c0, 0x20, texts[5]),
        holds_text(image, 0x2e0, 0x40, texts[6]),
{
    lemma_titles(profile, texts, device_record, local_time);
    assert forall|i: int| 0 <= i < 7 implies #[trigger] image[0x10 + i] == titles[0 + i] by {}
    assert forall|i: int| 0 <= i < 0x20 implies #[trigger] image[0x20 + i] == titles[0x10 + i] by {}
    assert forall|i: int| 0 <= i < 0x20 implies #[trigger] image[0x40 + i] == titles[0x30 + i] by {}
    assert forall|i: int| 0 <= i < 0x20 implies #[trigger] image[0x60 + i] == titles[0x50 + i] by {}
    assert forall|i: int| 0 <= i < 4 implies #[trigger] image[0x80 + i] == titles[0x70 + i] by {}
    assert forall|i: int| 0 <= i < 2 implies #[trigger] image[0x84 + i] == titles[0x74 + i] by {}
    assert forall|i: int| 0 <= i < 0x90 implies #[trigger] image[0x90 + i] == titles[0x80 + i] by {}
    assert forall|i: int| 0 <= i < 0x104 implies #[trigger] image[0x190 + i] == titles[0x180 + i] by {}
    assert forall|i: int| 0 <= i < 0x20 implies #[trigger] image[0x2a0 + i] == titles[0x290 + i] by {}
    assert forall|i: int| 0 <= i < 0x20 implies #[trigger] image[0x2c0 + i] == titles[0x2b0 + i] by {}
    assert forall|i: int| 0 <= i < 0x40 implies #[trigger] image[0x2e0 + i] == titles[0x2d0 + i] by {}
}

#[verifier::rlimit(60)]
proof fn lemma_moved_settings(
    image: Seq<u8>,
    settings: Seq<u8>,
    profile: Seq<u8>,
    texts: Seq<Seq<u8>>,
)
    requires
        profile.len() == 0xa28,
        settings == image_settings(profile, texts),
        forall|i: int| 0x320 <= i < 0x540 ==> #[trigger] image[i] == settings[i - 0x320],
    ensures
        copies(image, 0x324, profile, 0x7c4, 4),
        copies(image, 0x328, profile, 0x7c2, 2),
        copies(image, 0x330, profile, 0x7f0, 0x11),
        holds_text(image, 0x348, 0x104, texts[7]),
        copies(image, 0x44c, profile, 0xa0c, 4),
        copies(image, 0x450, profile, 0x73e, 0x84),
        copies(image, 0x4e8, profile, 0x516, 0x10),
        copies(image, 0x4f8, profile, 0x506, 0x10),
        copies(image, 0x508, profile, 0x7e8, 5),
        copies(image, 0x520, profile, 0x7c8, 0x20),
{
    lemma_settings(profile, texts);
    assert forall|i: int| 0 <= i < 4 implies #[trigger] image[0x324 + i] == settings[4 + i] by {}
    assert forall|i: int| 0 <= i < 2 implies #[trigger] image[0x328 + i] == settings[8 + i] by {}
    assert forall|i: int| 0 <= i < 0x11 implies #[trigger] image[0x330 + i] == settings[0x10 + i] by {}
    assert forall|i: int| 0 <= i < 0x104 implies #[trigger] image[0x348 + i] == settings[0x28 + i] by {}
    assert forall|i: int| 0 <= i < 4 implies #[trigger] image[0x44c + i] == settings[0x12c + i] by {}
    assert forall|i: int| 0 <= i < 0x84 implies #[trigger] image[0x450 + i] == settings[0x130 + i] by {}
    assert forall|i: int| 0 <= i < 0x10 implies #[trigger] image[0x4e8 + i] == settings[0x1c8 + i] by {}
    assert forall|i: int| 0 <= i < 0x10 implies #[trigger] image[0x4f8 + i] == settings[0x1d8 + i] by {}
    assert forall|i: int| 0 <= i < 5 implies #[trigger] image[0x508 + i] == settings[0x1e8 + i] by {}
    assert forall|i: int| 0 <= i < 0x20 implies #[trigger] image[0x520 + i] == settings[0x200 + i] by {}
}

/// A number has the bit that counts `value`.
pub open spec fn has_bit(number: int, value: int) -> bool {
    number / value % 2 == 1
}

proof fn lemma_capability_bits(capabilities: u32)
    ensures
        capabilities & 0x800 != 0 <==> has_bit(capabilities as int, 0x800),
        capabilities & 0x08 != 0 <==> has_bit(capabilities as int, 8),
        capabilities & 0x01 != 0 <==> has_bit(capabilities as int, 1),
        capabilities & 0x04 != 0 <==> has_bit(capabilities as int, 4),
{
    assert((capabilities & 0x800 != 0) == (capabilities / 0x800 % 2 == 1)) by (bit_vector);
    assert((capabilities & 0x08 != 0) == (capabilities / 8 % 2 == 1)) by (bit_vector);
    assert((capabilities & 0x01 != 0) == (capabilities / 1 % 2 == 1)) by (bit_vector);
    assert((capabilities & 0x04 != 0) == (capabilities / 4 % 2 == 1)) by (bit_vector);
}

/// The bit of a region, in eight bits.
pub open spec fn bit_of(region: int) -> int {
    if 0 <= region < 8 {
        vstd::arithmetic::power2::pow2(region as nat) as int
    } else {
        0
    }
}

proof fn lemma_region_bit(region: u32)
    ensures
        region_bit(region) == bit_of(region as int),
{
    vstd::arithmetic::power2::lemma2_to64();
}

#[verifier::rlimit(60)]
proof fn lemma_profile_start_fields(device: DeviceRecordView)
    requires
        device.raw.len() == 0x90,
        device.source_index <= u32::MAX,
    ensures
        ({
            let part = profile_start(device);
            let raw = device.raw;
            &&& part.len() == 0x3f0
            &&& word(part, 0) == 1
            &&& word(part, 0xd4) == device.source_index
            &&& part[0xd8] == raw[0x23]
            &&& part[0xd9] == raw[0x22]
            &&& copies(part, 0xda, raw, 0x24, 4)
            &&& copies(part, 0x120, raw, 0x34, 4)
            &&& copies(part, 0x124, raw, 0x30, 4)
            &&& copies(part, 0x268, raw, 0x3c, 4)
            &&& copies(part, 0x26c, raw, 0x38, 4)
        }),
{
    lemma_profile_start_length(device);
    law_numbers_are_stored_low_byte_first(0, 1);
    law_numbers_are_stored_low_byte_first(0, device.source_index as u32);
    let part = profile_start(device);
    assert(word(part, 0) == word(le32(1), 0));
    assert(word(part, 0xd4) == word(le32(device.source_index as u32), 0));
}

#[verifier::rlimit(60)]
proof fn lemma_profile_device_fields(device: DeviceRecordView, package: PackageRecordView)
    requires
        device.raw.len() == 0x90,
    ensures
        ({
            let part = profile_device(device, package);
            let raw = device.raw;
            let first = word(raw, 0x30);
            let second = word(raw, 0x38);
            &&& part.len() == 0x115
            &&& part[0] == raw[0x2c]
            &&& part[1] == raw[0x2f]
            &&& part[2] == (if first != 0 {
                1int
            } else {
                0
            }) + (if second != 0 {
                1int
            } else {
                0
            })
            &&& copies(part, 8, raw, 0x44, 4)
            &&& word(part, 0x58) == if device.configuration_stem is Some {
                1int
            } else {
                0int
            }
            &&& copies(part, 0x5c, raw, 0x28, 4)
            &&& half(part, 0x60) == if half(raw, 0x40) != 0 {
                half(raw, 0x40)
            } else if raw[0x23] == 0x10 {
                2
            } else if raw[0x23] == 0x20 {
                4
            } else {
                1
            }
            &&& copies(part, 0x62, raw, 0x74, 4)
            &&& copies(part, 0x68, raw, 0x70, 4)
            &&& copies(part, 0x70, raw, 0x48, 4)
            &&& part[0x74] == package.key
            &&& half(part, 0x76) == package.package_type
            &&& copies(part, 0x78, raw, 0x78, 0xc)
        }),
{
    lemma_profile_device_length(device, package);
    let raw = device.raw;
    let part = profile_device(device, package);
    law_fields_are_low_byte_first(raw, 0x30);
    law_fields_are_low_byte_first(raw, 0x38);
    law_fields_are_low_byte_first(raw, 0x40);
    law_numbers_are_stored_low_byte_first(bus_width(raw), 0);
    law_numbers_are_stored_low_byte_first(package.package_type, 1);
    law_numbers_are_stored_low_byte_first(0, 0);
    let flag: u32 = if device.configuration_stem is Some {
        1
    } else {
        0
    };
    assert(word(part, 0x58) == word(le32(flag), 0));
    assert(half(part, 0x60) == half(le16(bus_width(raw)), 0));
    assert(half(part, 0x76) == half(le16(package.package_type), 0));
}

/// Where the last data region ends, modulo 32 bits, in the profile.
#[verifier::rlimit(60)]
proof fn lemma_profile_end(device: DeviceRecordView, package: PackageRecordView)
    requires
        device.raw.len() == 0x90,
    ensures
        ({
            let raw = device.raw;
            let end = word(profile_device(device, package), 0x6c);
            let first = if word(raw, 0x30) == 0 {
                0
            } else {
                (word(raw, 0x34) + word(raw, 0x30)) % 0x1_0000_0000
            };
            let second = if word(raw, 0x38) == 0 {
                0
            } else {
                (word(raw, 0x3c) + word(raw, 0x38)) % 0x1_0000_0000
            };
            &&& end >= first && end >= second
            &&& end == first || end == second
        }),
{
    lemma_profile_device_length(device, package);
    let raw = device.raw;
    let part = profile_device(device, package);
    law_fields_are_low_byte_first(raw, 0x30);
    law_fields_are_low_byte_first(raw, 0x34);
    law_fields_are_low_byte_first(raw, 0x38);
    law_fields_are_low_byte_first(raw, 0x3c);
    law_numbers_are_stored_low_byte_first(0, maximum_end(raw));
    assert(word(part, 0x6c) == word(le32(maximum_end(raw)), 0));
}

/// The masks of the regions that an operation writes or checks, and reads.
pub open spec fn has_masks(operation: ParameterOperation, region: int, first: u8, second: u8) -> bool {
    match operation {
        ParameterOperation::Prepare | ParameterOperation::Progress => first == bit_of(region)
            && second == bit_of(region),
        ParameterOperation::Read => first == 0 && second == bit_of(region),
        ParameterOperation::ConfigurationRead => first == 0 && second == 16,
        ParameterOperation::ConfigurationWrite
        | ParameterOperation::ConfigurationVerify => first == 16 && second == 0,
        ParameterOperation::Program
        | ParameterOperation::Verify
        | ParameterOperation::BlankCheck
        | ParameterOperation::ChipErase
        | ParameterOperation::AutomaticErase => first == bit_of(region) && second == 0,
    }
}

/// The preparatory steps at an offset: 0x87 where the device erases, 0x84 behind it
/// where it also checks, then 0x81 and 0x83 where it programs and verifies.
pub open spec fn has_steps(image: Seq<u8>, at: int, capabilities: int) -> bool {
    let erases = has_bit(capabilities, 0x800);
    let checks = erases && has_bit(capabilities, 8);
    let programs = has_bit(capabilities, 1);
    let verifies = has_bit(capabilities, 4);
    let first = (if erases {
        1int
    } else {
        0
    }) + (if checks {
        1int
    } else {
        0
    });
    let second = first + if programs {
        1int
    } else {
        0
    };
    let third = second + if verifies {
        1int
    } else {
        0
    };
    &&& erases ==> image[at] == 0x87
    &&& checks ==> image[at + 1] == 0x84
    &&& programs ==> image[at + first] == 0x81
    &&& verifies ==> image[at + second] == 0x83
    &&& is_blank(image, at + third, at + 16)
}

#[verifier::rlimit(80)]
proof fn lemma_profile_schedule_fields(
    device: DeviceRecordView,
    configuration: Option<ConfigurationView>,
    operation: ParameterOperation,
    region: u32,
)
    requires
        device.raw.len() == 0x90,
        configuration matches Some(values) ==> values.default_block_0.len() == 0x40
            && values.default_block_1.len() == 0x40,
    ensures
        ({
            let part = profile_schedule(device, configuration, operation, region);
            let raw = device.raw;
            &&& part.len() == 0x523
            &&& part[0] == if has_bit(word(raw, 0x48), 0x800) {
                1int
            } else {
                2int
            }
            &&& has_steps(part, 1, word(raw, 0x48))
            &&& copies(part, 0x11, scheduled_codes(operation), 0, 0x10)
            &&& has_masks(operation, region as int, part[0x237], part[0x238])
            &&& match configuration {
                Some(values) => {
                    &&& copies(part, 0x239, values.default_block_0, 0, 0x40)
                    &&& copies(part, 0x279, values.default_block_1, 0, 0x40)
                    &&& word(part, 0x2b9) == values.default_protection_bits
                },
                None => is_blank(part, 0x239, 0x2bd),
            }
            &&& copies(part, 0x2bd, raw, 0x28, 2)
            &&& word(part, 0x2bf) == 0x111
            &&& word(part, 0x2eb) == 0x0104_0000
            &&& word(part, 0x2ef) == (word(raw, 0x30) - 0x10) % 0x1_0000_0000
        }),
{
    lemma_profile_schedule_length(device, configuration, operation, region);
    let raw = device.raw;
    let part = profile_schedule(device, configuration, operation, region);
    law_fields_are_low_byte_first(raw, 0x30);
    law_fields_are_low_byte_first(raw, 0x48);
    let capabilities = crate::bytes::u32_at(raw, 0x48);
    lemma_capability_bits(capabilities);
    lemma_region_bit(region);
    let steps = preparatory_steps(capabilities);
    assert(steps.len() <= 4);
    assert(forall|i: int| 0 <= i < steps.len() ==> #[trigger] part[1 + i] == steps[i]);
    assert(is_blank(part, 1 + steps.len() as int, 17));
    assert(scheduled_codes(operation).len() == 16);
    assert(part[0x237] == region_masks(operation, region).0);
    assert(part[0x238] == region_masks(operation, region).1);
    law_numbers_are_stored_low_byte_first(0, 0x111);
    law_numbers_are_stored_low_byte_first(0, 0x0104_0000);
    let rest = ((crate::bytes::u32_at(raw, 0x30) + 0x1_0000_0000 - 0x10) % 0x1_0000_0000) as u32;
    law_numbers_are_stored_low_byte_first(0, rest);
    assert(word(part, 0x2bf) == word(le32(0x111), 0));
    assert(word(part, 0x2eb) == word(le32(0x0104_0000), 0));
    assert(word(part, 0x2ef) == word(le32(rest), 0));
    if let Some(values) = configuration {
        law_numbers_are_stored_low_byte_first(0, values.default_protection_bits);
        assert(word(part, 0x2b9) == word(le32(values.default_protection_bits), 0));
    }
}

/// A schedule has a capability bit exactly if one of its codes stands for it: 1
/// programs, 2 reads, 3 verifies, 4 checks for blank, 5, 6 and 10 write, read and
/// verify the configuration, and 7 erases; 9 erases and checks.
pub proof fn law_capabilities_of_a_schedule(codes: Seq<u8>)
    ensures
        ({
            let bits = folded_capabilities(codes) as int;
            &&& has_bit(bits, 0x001) <==> codes.contains(1)
            &&& has_bit(bits, 0x002) <==> codes.contains(2)
            &&& has_bit(bits, 0x004) <==> codes.contains(3)
            &&& has_bit(bits, 0x008) <==> codes.contains(4) || codes.contains(9)
            &&& has_bit(bits, 0x010) <==> codes.contains(5)
            &&& has_bit(bits, 0x020) <==> codes.contains(6)
            &&& has_bit(bits, 0x040) <==> codes.contains(10)
            &&& has_bit(bits, 0x800) <==> codes.contains(7) || codes.contains(9)
            &&& bits < 0x1000 && bits / 0x80 % 0x10 == 0
        }),
    decreases codes.len(),
{
    if codes.len() > 0 {
        let start = codes.drop_last();
        law_capabilities_of_a_schedule(start);
        lemma_joined_bits(folded_capabilities(start), capability_of(codes.last()));
        lemma_capability(codes.last());
        lemma_last_code(codes, 1);
        lemma_last_code(codes, 2);
        lemma_last_code(codes, 3);
        lemma_last_code(codes, 4);
        lemma_last_code(codes, 5);
        lemma_last_code(codes, 6);
        lemma_last_code(codes, 7);
        lemma_last_code(codes, 9);
        lemma_last_code(codes, 10);
    } else {
        assert(forall|code: u8| !codes.contains(code));
        assert(forall|value: int| value > 0 ==> !#[trigger] has_bit(0, value)) by {
            assert forall|value: int| value > 0 implies !#[trigger] has_bit(0, value) by {
                assert(0int / value == 0) by (nonlinear_arith)
                    requires
                        value > 0,
                ;
            }
        }
    }
}

proof fn lemma_last_code(codes: Seq<u8>, code: u8)
    requires
        codes.len() > 0,
    ensures
        codes.contains(code) <==> codes.drop_last().contains(code) || codes.last() == code,
{
    let start = codes.drop_last();
    if start.contains(code) {
        let i = choose|i: int| 0 <= i < start.len() && start[i] == code;
        assert(codes[i] == code);
    }
    if codes.last() == code {
        assert(codes[codes.len() - 1] == code);
    }
    if codes.contains(code) {
        let i = choose|i: int| 0 <= i < codes.len() && codes[i] == code;
        if i < start.len() {
            assert(start[i] == code);
        }
    }
}

proof fn lemma_capability(code: u8)
    ensures
        ({
            let bits = capability_of(code) as int;
            &&& has_bit(bits, 0x001) <==> code == 1
            &&& has_bit(bits, 0x002) <==> code == 2
            &&& has_bit(bits, 0x004) <==> code == 3
            &&& has_bit(bits, 0x008) <==> code == 4 || code == 9
            &&& has_bit(bits, 0x010) <==> code == 5
            &&& has_bit(bits, 0x020) <==> code == 6
            &&& has_bit(bits, 0x040) <==> code == 10
            &&& has_bit(bits, 0x800) <==> code == 7 || code == 9
            &&& bits < 0x1000 && bits / 0x80 % 0x10 == 0
        }),
{
}

proof fn lemma_joined_bits(left: u32, right: u32)
    ensures
        has_bit((left | right) as int, 1) <==> has_bit(left as int, 1) || has_bit(right as int, 1),
        has_bit((left | right) as int, 2) <==> has_bit(left as int, 2) || has_bit(right as int, 2),
        has_bit((left | right) as int, 4) <==> has_bit(left as int, 4) || has_bit(right as int, 4),
        has_bit((left | right) as int, 8) <==> has_bit(left as int, 8) || has_bit(right as int, 8),
        has_bit((left | right) as int, 16) <==> has_bit(left as int, 16) || has_bit(
            right as int,
            16,
        ),
        has_bit((left | right) as int, 32) <==> has_bit(left as int, 32) || has_bit(
            right as int,
            32,
        ),
        has_bit((left | right) as int, 64) <==> has_bit(left as int, 64) || has_bit(
            right as int,
            64,
        ),
        has_bit((left | right) as int, 0x800) <==> has_bit(left as int, 0x800) || has_bit(
            right as int,
            0x800,
        ),
        left < 0x1000 && left / 0x80 % 0x10 == 0 && right < 0x1000 && right / 0x80 % 0x10 == 0
            ==> (left | right) < 0x1000 && (left | right) / 0x80 % 0x10 == 0,
{
    assert(((left | right) / 1 % 2 == 1) == (left / 1 % 2 == 1 || right / 1 % 2 == 1) && ((left
        | right) / 2 % 2 == 1) == (left / 2 % 2 == 1 || right / 2 % 2 == 1) && ((left | right) / 4
        % 2 == 1) == (left / 4 % 2 == 1 || right / 4 % 2 == 1) && ((left | right) / 8 % 2 == 1) == (
    left / 8 % 2 == 1 || right / 8 % 2 == 1)) by (bit_vector);
    assert(((left | right) / 16 % 2 == 1) == (left / 16 % 2 == 1 || right / 16 % 2 == 1) && ((left
        | right) / 32 % 2 == 1) == (left / 32 % 2 == 1 || right / 32 % 2 == 1) && ((left | right)
        / 64 % 2 == 1) == (left / 64 % 2 == 1 || right / 64 % 2 == 1) && ((left | right) / 0x800 % 2
        == 1) == (left / 0x800 % 2 == 1 || right / 0x800 % 2 == 1)) by (bit_vector);
    assert(left < 0x1000 && left / 0x80 % 0x10 == 0 && right < 0x1000 && right / 0x80 % 0x10 == 0
        ==> (left | right) < 0x1000 && (left | right) / 0x80 % 0x10 == 0) by (bit_vector);
}

/// Where the values of a new project stand in its runtime profile: those of the
/// device record, of the package and the configuration, and the schedule of the
/// operation.
#[verifier::rlimit(80)]
pub proof fn law_profile_layout(
    device: DeviceRecordView,
    package: PackageRecordView,
    configuration: Option<ConfigurationView>,
    operation: ParameterOperation,
    region: u32,
)
    requires
        device.raw.len() == 0x90,
        device.source_index <= u32::MAX,
        configuration matches Some(values) ==> values.default_block_0.len() == 0x40
            && values.default_block_1.len() == 0x40,
    ensures
        ({
            let profile = project_profile(device, package, configuration, operation, region);
            let raw = device.raw;
            &&& profile.len() == 0xa28
            &&& word(profile, 0) == 1
            &&& word(profile, 0xd4) == device.source_index
            &&& profile[0xd8] == raw[0x23]
            &&& profile[0xd9] == raw[0x22]
            &&& copies(profile, 0xda, raw, 0x24, 4)
            &&& copies(profile, 0x120, raw, 0x34, 4)
            &&& copies(profile, 0x124, raw, 0x30, 4)
            &&& copies(profile, 0x268, raw, 0x3c, 4)
            &&& copies(profile, 0x26c, raw, 0x38, 4)
            &&& profile[0x3f0] == raw[0x2c]
            &&& profile[0x3f1] == raw[0x2f]
            &&& profile[0x3f2] == (if word(raw, 0x30) != 0 {
                1int
            } else {
                0
            }) + (if word(raw, 0x38) != 0 {
                1int
            } else {
                0
            })
            &&& copies(profile, 0x3f8, raw, 0x44, 4)
            &&& word(profile, 0x448) == if device.configuration_stem is Some {
                1int
            } else {
                0int
            }
            &&& copies(profile, 0x44c, raw, 0x28, 4)
            &&& half(profile, 0x450) == if half(raw, 0x40) != 0 {
                half(raw, 0x40)
            } else if raw[0x23] == 0x10 {
                2
            } else if raw[0x23] == 0x20 {
                4
            } else {
                1
            }
            &&& copies(profile, 0x452, raw, 0x74, 4)
            &&& copies(profile, 0x458, raw, 0x70, 4)
            &&& copies(profile, 0x460, raw, 0x48, 4)
            &&& profile[0x464] == package.key
            &&& half(profile, 0x466) == package.package_type
            &&& copies(profile, 0x468, raw, 0x78, 0xc)
            &&& profile[0x504] == 0
            &&& profile[0x505] == if has_bit(word(raw, 0x48), 0x800) {
                1int
            } else {
                2int
            }
            &&& has_steps(profile, 0x506, word(raw, 0x48))
            &&& copies(profile, 0x516, scheduled_codes(operation), 0, 0x10)
            &&& profile.subrange(0x516, 0x526) == scheduled_codes(operation)
            &&& is_blank(profile, 0x526, 0x73c)
            &&& has_masks(operation, region as int, profile[0x73c], profile[0x73d])
            &&& match configuration {
                Some(values) => {
                    &&& copies(profile, 0x73e, values.default_block_0, 0, 0x40)
                    &&& copies(profile, 0x77e, values.default_block_1, 0, 0x40)
                    &&& word(profile, 0x7be) == values.default_protection_bits
                },
                None => is_blank(profile, 0x73e, 0x7c2),
            }
            &&& copies(profile, 0x7c2, raw, 0x28, 2)
            &&& word(profile, 0x7c4) == 0x111
            &&& is_blank(profile, 0x7c8, 0x7f0)
            &&& word(profile, 0x7f0) == 0x0104_0000
            &&& word(profile, 0x7f4) == (word(raw, 0x30) - 0x10) % 0x1_0000_0000
            &&& is_blank(profile, 0x7f8, 0xa28)
        }),
{
    let profile = project_profile(device, package, configuration, operation, region);
    let raw = device.raw;
    let start = profile_start(device);
    let middle = profile_device(device, package);
    let end = profile_schedule(device, configuration, operation, region);
    lemma_profile_start_fields(device);
    lemma_profile_device_fields(device, package);
    lemma_profile_schedule_fields(device, configuration, operation, region);
    assert(forall|i: int| 0 <= i < 0x3f0 ==> #[trigger] profile[i] == start[i]);
    assert(forall|i: int| 0x3f0 <= i < 0x505 ==> #[trigger] profile[i] == middle[i - 0x3f0]);
    assert(forall|i: int| 0x505 <= i < 0xa28 ==> #[trigger] profile[i] == end[i - 0x505]);
    lemma_moved(profile, middle, 0x3f0, 8, raw, 0x44, 4);
    lemma_moved(profile, middle, 0x3f0, 0x5c, raw, 0x28, 4);
    lemma_moved(profile, middle, 0x3f0, 0x62, raw, 0x74, 4);
    lemma_moved(profile, middle, 0x3f0, 0x68, raw, 0x70, 4);
    lemma_moved(profile, middle, 0x3f0, 0x70, raw, 0x48, 4);
    lemma_moved(profile, middle, 0x3f0, 0x78, raw, 0x78, 0xc);
    lemma_moved(profile, end, 0x505, 0x11, scheduled_codes(operation), 0, 0x10);
    lemma_moved(profile, end, 0x505, 0x2bd, raw, 0x28, 2);
    if let Some(values) = configuration {
        lemma_moved(profile, end, 0x505, 0x239, values.default_block_0, 0, 0x40);
        lemma_moved(profile, end, 0x505, 0x279, values.default_block_1, 0, 0x40);
    }
    assert(scheduled_codes(operation).len() == 16);
    assert forall|i: int| 0 <= i < 16 implies profile.subrange(0x516, 0x526)[i] == scheduled_codes(
        operation,
    )[i] by {
        assert(profile[0x516 + i] == scheduled_codes(operation)[0 + i]);
    }
    assert(profile.subrange(0x516, 0x526) =~= scheduled_codes(operation));
    assert forall|i: int| crate::parameters::is_unnamed(i) implies #[trigger] profile[i] == 0 by {
        crate::parameters::law_unnamed_profile_bytes_are_zero(
            device,
            package,
            configuration,
            operation,
            region,
            i,
        );
    }
}

/// A part moves with what it holds.
proof fn lemma_moved(
    whole: Seq<u8>,
    part: Seq<u8>,
    at: int,
    offset: int,
    source: Seq<u8>,
    from: int,
    count: int,
)
    requires
        0 <= offset,
        0 <= count,
        offset + count <= part.len(),
        copies(part, offset, source, from, count),
        forall|i: int| at <= i < at + part.len() ==> #[trigger] whole[i] == part[i - at],
    ensures
        copies(whole, at + offset, source, from, count),
{
    assert forall|i: int| 0 <= i < count implies #[trigger] whole[at + offset + i] == source[from
        + i] by {
        assert(part[offset + i] == source[from + i]);
    }
}

/// The image of a new project states its own schedule. The first scheduled code is
/// the number of the operation, or program followed by verify for a preparation,
/// and the capability word is that of these codes and no others.
#[verifier::rlimit(60)]
pub proof fn law_images_schedule_their_operation(
    inputs: AutomaticInputsView,
    project: PreparedProjectView,
    strings: Seq<Seq<u8>>,
    data_crc: u32,
)
    requires
        inputs.device.raw.len() == 0x90,
        inputs.device.source_index <= u32::MAX,
        inputs.algorithm.valid(),
        inputs.configuration matches Some(values) ==> values.default_block_0.len() == 0x40
            && values.default_block_1.len() == 0x40,
        0 <= project.start <= project.end <= u32::MAX,
    ensures
        ({
            let image = sealed(inputs.project_body(project, strings, data_crc));
            let code = image[0x4e8];
            let capabilities = word(image, 0x4e4);
            &&& match inputs.operation {
                ParameterOperation::Prepare => code == 1 && image[0x4e9] == 3 && capabilities
                    == 0x005,
                ParameterOperation::Program => code == 1 && image[0x4e9] == 0 && capabilities
                    == 0x001,
                ParameterOperation::Read => code == 2 && image[0x4e9] == 0 && capabilities == 0x002,
                ParameterOperation::Verify => code == 3 && image[0x4e9] == 0 && capabilities
                    == 0x004,
                ParameterOperation::BlankCheck => code == 4 && image[0x4e9] == 0 && capabilities
                    == 0x008,
                ParameterOperation::ConfigurationWrite => code == 5 && image[0x4e9] == 0
                    && capabilities == 0x010,
                ParameterOperation::ConfigurationRead => code == 6 && image[0x4e9] == 0
                    && capabilities == 0x020,
                ParameterOperation::ChipErase => code == 7 && image[0x4e9] == 0 && capabilities
                    == 0x800,
                ParameterOperation::Progress => code == 8 && image[0x4e9] == 0 && capabilities == 0,
                ParameterOperation::AutomaticErase => code == 9 && image[0x4e9] == 0 && capabilities
                    == 0x808,
                ParameterOperation::ConfigurationVerify => code == 10 && image[0x4e9] == 0
                    && capabilities == 0x040,
            }
            &&& is_blank(image, 0x4ea, 0x4f8)
            &&& has_bit(capabilities, 1) <==> inputs.operation is Program
                || inputs.operation is Prepare
            &&& has_bit(capabilities, 0x800) <==> inputs.operation is ChipErase
                || inputs.operation is AutomaticErase
        }),
{
    let profile = project_profile(
        inputs.device,
        inputs.package,
        inputs.configuration,
        inputs.operation,
        inputs.region,
    );
    let image = sealed(inputs.project_body(project, strings, data_crc));
    lemma_project_image(inputs, project, strings, data_crc);
    law_profile_layout(
        inputs.device,
        inputs.package,
        inputs.configuration,
        inputs.operation,
        inputs.region,
    );
    lemma_scheduled_bytes(image, profile, inputs.operation);
}

proof fn lemma_scheduled_bytes(image: Seq<u8>, profile: Seq<u8>, operation: ParameterOperation)
    requires
        copies(image, 0x4e8, profile, 0x516, 0x10),
        profile.subrange(0x516, 0x526) == scheduled_codes(operation),
        copies(profile, 0x516, scheduled_codes(operation), 0, 0x10),
        word(image, 0x4e4) == folded_capabilities(profile.subrange(0x516, 0x526)),
    ensures
        ({
            let code = image[0x4e8];
            let capabilities = word(image, 0x4e4);
            &&& match operation {
                ParameterOperation::Prepare => code == 1 && image[0x4e9] == 3 && capabilities
                    == 0x005,
                ParameterOperation::Program => code == 1 && image[0x4e9] == 0 && capabilities
                    == 0x001,
                ParameterOperation::Read => code == 2 && image[0x4e9] == 0 && capabilities == 0x002,
                ParameterOperation::Verify => code == 3 && image[0x4e9] == 0 && capabilities
                    == 0x004,
                ParameterOperation::BlankCheck => code == 4 && image[0x4e9] == 0 && capabilities
                    == 0x008,
                ParameterOperation::ConfigurationWrite => code == 5 && image[0x4e9] == 0
                    && capabilities == 0x010,
                ParameterOperation::ConfigurationRead => code == 6 && image[0x4e9] == 0
                    && capabilities == 0x020,
                ParameterOperation::ChipErase => code == 7 && image[0x4e9] == 0 && capabilities
                    == 0x800,
                ParameterOperation::Progress => code == 8 && image[0x4e9] == 0 && capabilities == 0,
                ParameterOperation::AutomaticErase => code == 9 && image[0x4e9] == 0 && capabilities
                    == 0x808,
                ParameterOperation::ConfigurationVerify => code == 10 && image[0x4e9] == 0
                    && capabilities == 0x040,
            }
            &&& is_blank(image, 0x4ea, 0x4f8)
            &&& has_bit(capabilities, 1) <==> operation is Program || operation is Prepare
            &&& has_bit(capabilities, 0x800) <==> operation is ChipErase
                || operation is AutomaticErase
        }),
{
    let codes = scheduled_codes(operation);
    assert(codes.len() == 16);
    assert forall|i: int| 0 <= i < 16 implies #[trigger] image[0x4e8 + i] == codes[i] by {
        assert(image[0x4e8 + i] == profile[0x516 + i]);
        assert(profile[0x516 + i] == codes[0 + i]);
    }
    assert(image[0x4e8 + 0int] == codes[0]);
    assert(image[0x4e8 + 1int] == codes[1]);
    assert forall|i: int| 0x4ea <= i < 0x4f8 implies #[trigger] image[i] == 0 by {
        assert(image[0x4e8 + (i - 0x4e8)] == codes[i - 0x4e8]);
    }
    lemma_folded_schedule(operation);
}

proof fn lemma_folded_schedule(operation: ParameterOperation)
    ensures
        folded_capabilities(scheduled_codes(operation)) == match operation {
            ParameterOperation::Prepare => 0x005u32,
            ParameterOperation::Program => 0x001,
            ParameterOperation::Read => 0x002,
            ParameterOperation::Verify => 0x004,
            ParameterOperation::BlankCheck => 0x008,
            ParameterOperation::ConfigurationWrite => 0x010,
            ParameterOperation::ConfigurationRead => 0x020,
            ParameterOperation::ChipErase => 0x800,
            ParameterOperation::Progress => 0,
            ParameterOperation::AutomaticErase => 0x808,
            ParameterOperation::ConfigurationVerify => 0x040,
        },
{
    if operation is Prepare {
        let codes = seq![1u8, 3u8];
        lemma_folded_zeros(codes, 14);
        reveal_with_fuel(folded_capabilities, 3);
        assert(codes.drop_last() =~= seq![1u8]);
        assert(codes.drop_last().drop_last() =~= Seq::<u8>::empty());
        assert((0u32 | 0x001u32) | 0x004u32 == 0x005u32) by (bit_vector);
    } else {
        let codes = seq![code_of(operation)];
        lemma_folded_zeros(codes, 15);
        reveal_with_fuel(folded_capabilities, 2);
        assert(codes.drop_last() =~= Seq::<u8>::empty());
        let wanted = capability_of(code_of(operation));
        assert(0u32 | wanted == wanted) by (bit_vector);
    }
}

proof fn lemma_folded_zeros(codes: Seq<u8>, count: nat)
    ensures
        folded_capabilities(codes + zeros(count)) == folded_capabilities(codes),
    decreases count,
{
    if count == 0 {
        assert(codes + zeros(0) =~= codes);
    } else {
        let longer = codes + zeros(count);
        lemma_folded_zeros(codes, (count - 1) as nat);
        assert(longer.drop_last() =~= codes + zeros((count - 1) as nat));
        let before = folded_capabilities(codes);
        assert(before | 0u32 == before) by (bit_vector);
    }
}

/// No two operations but a preparation and a programming run begin their schedules
/// with the same code, and no two have the same schedule.
#[verifier::rlimit(60)]
pub proof fn law_schedules_tell_operations_apart(
    left: AutomaticInputsView,
    right: AutomaticInputsView,
    project: PreparedProjectView,
    strings: Seq<Seq<u8>>,
    data_crc: u32,
)
    requires
        left.device.raw.len() == 0x90,
        left.device.source_index <= u32::MAX,
        left.algorithm.valid(),
        left.configuration matches Some(values) ==> values.default_block_0.len() == 0x40
            && values.default_block_1.len() == 0x40,
        right.device.raw.len() == 0x90,
        right.device.source_index <= u32::MAX,
        right.algorithm.valid(),
        right.configuration matches Some(values) ==> values.default_block_0.len() == 0x40
            && values.default_block_1.len() == 0x40,
        0 <= project.start <= project.end <= u32::MAX,
        left.operation != right.operation,
    ensures
        ({
            let first = sealed(left.project_body(project, strings, data_crc));
            let second = sealed(right.project_body(project, strings, data_crc));
            &&& first.subrange(0x4e8, 0x4f8) != second.subrange(0x4e8, 0x4f8)
            &&& !(left.operation is Prepare) && !(right.operation is Prepare) ==> first[0x4e8]
                != second[0x4e8]
        }),
{
    let first = sealed(left.project_body(project, strings, data_crc));
    let second = sealed(right.project_body(project, strings, data_crc));
    law_images_schedule_their_operation(left, project, strings, data_crc);
    law_images_schedule_their_operation(right, project, strings, data_crc);
    lemma_project_image(left, project, strings, data_crc);
    lemma_project_image(right, project, strings, data_crc);
    assert(first.subrange(0x4e8, 0x4f8)[0] == first[0x4e8]);
    assert(first.subrange(0x4e8, 0x4f8)[1] == first[0x4e9]);
    assert(second.subrange(0x4e8, 0x4f8)[0] == second[0x4e8]);
    assert(second.subrange(0x4e8, 0x4f8)[1] == second[0x4e9]);
}

/// What the layout of an image says of one of a new project.
proof fn lemma_project_image(
    inputs: AutomaticInputsView,
    project: PreparedProjectView,
    strings: Seq<Seq<u8>>,
    data_crc: u32,
)
    requires
        inputs.device.raw.len() == 0x90,
        inputs.device.source_index <= u32::MAX,
        inputs.algorithm.valid(),
        inputs.configuration matches Some(values) ==> values.default_block_0.len() == 0x40
            && values.default_block_1.len() == 0x40,
        0 <= project.start <= project.end <= u32::MAX,
    ensures
        ({
            let image = sealed(inputs.project_body(project, strings, data_crc));
            let profile = project_profile(
                inputs.device,
                inputs.package,
                inputs.configuration,
                inputs.operation,
                inputs.region,
            );
            &&& image.len() == 0x800
            &&& copies(image, 0x4e8, profile, 0x516, 0x10)
            &&& word(image, 0x4e4) == folded_capabilities(profile.subrange(0x516, 0x526))
        }),
{
    let profile = project_profile(
        inputs.device,
        inputs.package,
        inputs.configuration,
        inputs.operation,
        inputs.region,
    );
    lemma_profile_length(
        inputs.device,
        inputs.package,
        inputs.configuration,
        inputs.operation,
        inputs.region,
    );
    let capacity = crate::assets::device_db::region_of(
        inputs.device.raw,
        inputs.region as int,
    ).unwrap().1;
    let length = project.end - project.start;
    law_image_layout(
        profile,
        strings,
        inputs.device.raw,
        inputs.algorithm,
        project.start,
        length,
        data_crc,
        inputs.local_time_bcd@,
        derived_range_bytes(project.start, length, capacity),
    );
}

/// Where the values of a new project stand in its image: the number of the device in
/// the catalog, the package, the device record, the region masks, the configuration
/// defaults, the preparatory steps of the device, the range of the data and the
/// capacity of the region. Values that a new project has no part in are zero.
#[verifier::rlimit(90)]
pub proof fn law_new_project_layout(
    inputs: AutomaticInputsView,
    project: PreparedProjectView,
    strings: Seq<Seq<u8>>,
    data_crc: u32,
)
    requires
        inputs.device.raw.len() == 0x90,
        inputs.device.source_index <= u32::MAX,
        inputs.algorithm.valid(),
        inputs.configuration matches Some(values) ==> values.default_block_0.len() == 0x40
            && values.default_block_1.len() == 0x40,
        0 <= project.start <= project.end <= u32::MAX,
    ensures
        ({
            let image = sealed(inputs.project_body(project, strings, data_crc));
            let raw = inputs.device.raw;
            &&& half(image, 0xa) == 0x0100
            &&& half(image, 0xc) == if word(raw, 0x30) > 0x0400_0000 {
                0x0100int
            } else {
                0int
            }
            &&& copies(image, 0x10, inputs.local_time_bcd@, 0, 7)
            &&& word(image, 0x80) == inputs.device.source_index
            &&& half(image, 0x84) == inputs.package.package_type
            &&& image[0x86] == inputs.package.key
            &&& copies(image, 0x90, raw, 0, 0x90)
            &&& image[0x29f] == 0
            &&& has_masks(inputs.operation, inputs.region as int, image[0x320], image[0x321])
            &&& image[0x322] == 0
            &&& word(image, 0x324) == 0x111
            &&& image[0x328] == raw[0x28] && image[0x329] == raw[0x29]
            &&& word(image, 0x330) == 0x0104_0000
            &&& word(image, 0x334) == (word(raw, 0x30) - 0x10) % 0x1_0000_0000
            &&& is_blank(image, 0x338, 0x348)
            &&& is_blank(image, 0x44c, 0x450)
            &&& match inputs.configuration {
                Some(values) => {
                    &&& copies(image, 0x450, values.default_block_0, 0, 0x40)
                    &&& copies(image, 0x490, values.default_block_1, 0, 0x40)
                    &&& word(image, 0x4d0) == values.default_protection_bits
                },
                None => is_blank(image, 0x450, 0x4d4),
            }
            &&& image[0x4e0] == if has_bit(word(raw, 0x48), 0x800) {
                1int
            } else {
                2int
            }
            &&& has_steps(image, 0x4f8, word(raw, 0x48))
            &&& is_blank(image, 0x508, 0x540)
            &&& is_blank(image, 0x560, 0x56c)
            &&& word(image, 0x56c) == project.start
            &&& word(image, 0x570) == project.end - project.start
            &&& word(image, 0x574) == data_crc
        }),
{
    let image = sealed(inputs.project_body(project, strings, data_crc));
    let raw = inputs.device.raw;
    let profile = project_profile(
        inputs.device,
        inputs.package,
        inputs.configuration,
        inputs.operation,
        inputs.region,
    );
    lemma_takes_from(inputs, project, strings, data_crc);
    lemma_is_profile_of(
        inputs.device,
        inputs.package,
        inputs.configuration,
        inputs.operation,
        inputs.region,
    );
    lemma_new_project(
        image,
        profile,
        raw,
        inputs.device.source_index,
        inputs.package,
        inputs.configuration,
        inputs.operation,
        inputs.region,
    );
}

/// What an image takes from its profile.
#[verifier::opaque]
spec fn takes_from(image: Seq<u8>, profile: Seq<u8>) -> bool {
    &&& half(image, 0xa) == if profile[0x7f0] == 0 {
            0x0100int
        } else {
            0x0132int
        }
    &&& half(image, 0xc) == if word(profile, 0x124) > 0x0400_0000 || profile[0x72e] / 32 % 2 == 1 {
            0x0100int
        } else {
            0int
        }
    &&& copies(image, 0x80, profile, 0xd4, 4)
    &&& copies(image, 0x84, profile, 0x466, 2)
    &&& image[0x86] == profile[0x464]
    &&& image[0x29f] == profile[0x72e]
    &&& image[0x320] == profile[0x73c]
    &&& image[0x321] == profile[0x73d]
    &&& image[0x322] == profile[0x504]
    &&& copies(image, 0x324, profile, 0x7c4, 4)
    &&& copies(image, 0x328, profile, 0x7c2, 2)
    &&& copies(image, 0x330, profile, 0x7f0, 0x11)
    &&& is_blank(image, 0x341, 0x348)
    &&& copies(image, 0x44c, profile, 0xa0c, 4)
    &&& copies(image, 0x450, profile, 0x73e, 0x84)
    &&& image[0x4e0] == profile[0x505]
    &&& copies(image, 0x4f8, profile, 0x506, 0x10)
    &&& copies(image, 0x508, profile, 0x7e8, 5)
    &&& is_blank(image, 0x50d, 0x520)
    &&& copies(image, 0x520, profile, 0x7c8, 0x20)
    &&& copies(image, 0x560, profile, 0x730, 0xc)
}

/// What the profile of a new project takes from its inputs.
#[verifier::opaque]
spec fn is_profile_of(
    profile: Seq<u8>,
    raw: Seq<u8>,
    index: nat,
    package: PackageRecordView,
    configuration: Option<ConfigurationView>,
    operation: ParameterOperation,
    region: u32,
) -> bool {
    &&& word(profile, 0xd4) == index
    &&& copies(profile, 0x124, raw, 0x30, 4)
    &&& profile[0x464] == package.key
    &&& half(profile, 0x466) == package.package_type
    &&& profile[0x504] == 0
    &&& profile[0x505] == if has_bit(word(raw, 0x48), 0x800) {
            1int
        } else {
            2int
        }
    &&& has_steps(profile, 0x506, word(raw, 0x48))
    &&& is_blank(profile, 0x526, 0x73c)
    &&& has_masks(operation, region as int, profile[0x73c], profile[0x73d])
    &&& match configuration {
        Some(values) => {
            &&& copies(profile, 0x73e, values.default_block_0, 0, 0x40)
            &&& copies(profile, 0x77e, values.default_block_1, 0, 0x40)
            &&& word(profile, 0x7be) == values.default_protection_bits
        },
        None => is_blank(profile, 0x73e, 0x7c2),
    }
    &&& copies(profile, 0x7c2, raw, 0x28, 2)
    &&& word(profile, 0x7c4) == 0x111
    &&& is_blank(profile, 0x7c8, 0x7f0)
    &&& word(profile, 0x7f0) == 0x0104_0000
    &&& word(profile, 0x7f4) == (word(raw, 0x30) - 0x10) % 0x1_0000_0000
    &&& is_blank(profile, 0x7f8, 0xa28)
}

#[verifier::rlimit(60)]
proof fn lemma_takes_from(
    inputs: AutomaticInputsView,
    project: PreparedProjectView,
    strings: Seq<Seq<u8>>,
    data_crc: u32,
)
    requires
        inputs.device.raw.len() == 0x90,
        inputs.algorithm.valid(),
        inputs.configuration matches Some(values) ==> values.default_block_0.len() == 0x40
            && values.default_block_1.len() == 0x40,
        0 <= project.start <= project.end <= u32::MAX,
    ensures
        ({
            let image = sealed(inputs.project_body(project, strings, data_crc));
            &&& takes_from(
                image,
                project_profile(
                    inputs.device,
                    inputs.package,
                    inputs.configuration,
                    inputs.operation,
                    inputs.region,
                ),
            )
            &&& copies(image, 0x10, inputs.local_time_bcd@, 0, 7)
            &&& copies(image, 0x90, inputs.device.raw, 0, 0x90)
            &&& word(image, 0x56c) == project.start
            &&& word(image, 0x570) == project.end - project.start
            &&& word(image, 0x574) == data_crc
        }),
{
    let profile = project_profile(
        inputs.device,
        inputs.package,
        inputs.configuration,
        inputs.operation,
        inputs.region,
    );
    lemma_profile_length(
        inputs.device,
        inputs.package,
        inputs.configuration,
        inputs.operation,
        inputs.region,
    );
    let capacity = crate::assets::device_db::region_of(
        inputs.device.raw,
        inputs.region as int,
    ).unwrap().1;
    let length = project.end - project.start;
    lemma_takes_from_any(
        profile,
        strings,
        inputs.device.raw,
        inputs.algorithm,
        project.start,
        length,
        data_crc,
        inputs.local_time_bcd@,
        derived_range_bytes(project.start, length, capacity),
    );
}

proof fn lemma_takes_from_any(
    profile: Seq<u8>,
    texts: Seq<Seq<u8>>,
    device_record: Seq<u8>,
    algorithm: AlgorithmView,
    start: int,
    length: int,
    data_crc: u32,
    local_time: Seq<u8>,
    derived_ranges: Seq<u8>,
)
    requires
        profile.len() == 0xa28,
        device_record.len() == 0x90,
        local_time.len() == 7,
        derived_ranges.len() == 0x18,
        algorithm.valid(),
        0 <= start <= u32::MAX,
        0 <= length <= u32::MAX,
    ensures
        ({
            let image = sealed(
                image_body(
                    profile,
                    texts,
                    device_record,
                    algorithm,
                    start,
                    length,
                    data_crc,
                    local_time,
                    derived_ranges,
                ),
            );
            &&& takes_from(image, profile)
            &&& copies(image, 0x10, local_time, 0, 7)
            &&& copies(image, 0x90, device_record, 0, 0x90)
            &&& word(image, 0x56c) == start
            &&& word(image, 0x570) == length
            &&& word(image, 0x574) == data_crc
        }),
{
    reveal(takes_from);
    law_image_layout(
        profile,
        texts,
        device_record,
        algorithm,
        start,
        length,
        data_crc,
        local_time,
        derived_ranges,
    );
}

proof fn lemma_is_profile_of(
    device: DeviceRecordView,
    package: PackageRecordView,
    configuration: Option<ConfigurationView>,
    operation: ParameterOperation,
    region: u32,
)
    requires
        device.raw.len() == 0x90,
        device.source_index <= u32::MAX,
        configuration matches Some(values) ==> values.default_block_0.len() == 0x40
            && values.default_block_1.len() == 0x40,
    ensures
        is_profile_of(
            project_profile(device, package, configuration, operation, region),
            device.raw,
            device.source_index,
            package,
            configuration,
            operation,
            region,
        ),
{
    reveal(is_profile_of);
    law_profile_layout(device, package, configuration, operation, region);
}

/// The image and the profile of a new project together.
#[verifier::rlimit(90)]
proof fn lemma_new_project(
    image: Seq<u8>,
    profile: Seq<u8>,
    raw: Seq<u8>,
    index: nat,
    package: PackageRecordView,
    configuration: Option<ConfigurationView>,
    operation: ParameterOperation,
    region: u32,
)
    requires
        takes_from(image, profile),
        is_profile_of(profile, raw, index, package, configuration, operation, region),
    ensures
        ({
            &&& half(image, 0xa) == 0x0100
            &&& half(image, 0xc) == if word(raw, 0x30) > 0x0400_0000 {
                0x0100int
            } else {
                0int
            }
            &&& word(image, 0x80) == index
            &&& half(image, 0x84) == package.package_type
            &&& image[0x86] == package.key
            &&& image[0x29f] == 0
            &&& has_masks(operation, region as int, image[0x320], image[0x321])
            &&& image[0x322] == 0
            &&& word(image, 0x324) == 0x111
            &&& image[0x328] == raw[0x28] && image[0x329] == raw[0x29]
            &&& word(image, 0x330) == 0x0104_0000
            &&& word(image, 0x334) == (word(raw, 0x30) - 0x10) % 0x1_0000_0000
            &&& is_blank(image, 0x338, 0x348)
            &&& is_blank(image, 0x44c, 0x450)
            &&& match configuration {
                Some(values) => {
                    &&& copies(image, 0x450, values.default_block_0, 0, 0x40)
                    &&& copies(image, 0x490, values.default_block_1, 0, 0x40)
                    &&& word(image, 0x4d0) == values.default_protection_bits
                },
                None => is_blank(image, 0x450, 0x4d4),
            }
            &&& image[0x4e0] == if has_bit(word(raw, 0x48), 0x800) {
                1int
            } else {
                2int
            }
            &&& has_steps(image, 0x4f8, word(raw, 0x48))
            &&& is_blank(image, 0x508, 0x540)
            &&& is_blank(image, 0x560, 0x56c)
        }),
{
    reveal(takes_from);
    reveal(is_profile_of);
    lemma_copied_word(image, 0x80, profile, 0xd4, 4, 0);
    lemma_copied_half(image, 0x84, profile, 0x466, 2, 0);
    lemma_copied_word(profile, 0x124, raw, 0x30, 4, 0);
    lemma_copied_word(image, 0x324, profile, 0x7c4, 4, 0);
    lemma_copied_half(image, 0x328, profile, 0x7c2, 2, 0);
    lemma_copied_half(profile, 0x7c2, raw, 0x28, 2, 0);
    lemma_copied_word(image, 0x330, profile, 0x7f0, 0x11, 0);
    lemma_copied_word(image, 0x330, profile, 0x7f0, 0x11, 4);
    lemma_copied_word(image, 0x450, profile, 0x73e, 0x84, 0x80);
    assert(profile[0x7f0] == 0) by {
        assert(word(profile, 0x7f0) % 256 == profile[0x7f0]);
    }
    assert forall|i: int| 0x338 <= i < 0x341 implies #[trigger] image[i] == 0 by {
        assert(image[0x330 + (i - 0x330)] == profile[0x7f0 + (i - 0x330)]);
        assert(profile[i - 0x330 + 0x7f0] == 0);
    }
    assert forall|i: int| 0x44c <= i < 0x450 implies #[trigger] image[i] == 0 by {
        assert(image[0x44c + (i - 0x44c)] == profile[0xa0c + (i - 0x44c)]);
    }
    assert forall|i: int| 0x508 <= i < 0x540 implies #[trigger] image[i] == 0 by {
        if i < 0x50d {
            assert(image[0x508 + (i - 0x508)] == profile[0x7e8 + (i - 0x508)]);
        } else if i >= 0x520 {
            assert(image[0x520 + (i - 0x520)] == profile[0x7c8 + (i - 0x520)]);
        }
    }
    assert forall|i: int| 0x560 <= i < 0x56c implies #[trigger] image[i] == 0 by {
        assert(image[0x560 + (i - 0x560)] == profile[0x730 + (i - 0x560)]);
    }
    assert forall|i: int| 0 <= i < 0x10 implies #[trigger] image[0x4f8 + i] == profile[0x506 + i] by {}
    lemma_moved_steps(image, 0x4f8, profile, 0x506, word(raw, 0x48));
    match configuration {
        Some(values) => {
            assert forall|i: int| 0 <= i < 0x40 implies #[trigger] image[0x450 + i]
                == values.default_block_0[0 + i] by {
                assert(profile[0x73e + i] == values.default_block_0[0 + i]);
            }
            assert forall|i: int| 0 <= i < 0x40 implies #[trigger] image[0x490 + i]
                == values.default_block_1[0 + i] by {
                assert(image[0x450 + (0x40 + i)] == profile[0x73e + (0x40 + i)]);
                assert(profile[0x77e + i] == values.default_block_1[0 + i]);
            }
        },
        None => {
            assert forall|i: int| 0x450 <= i < 0x4d4 implies #[trigger] image[i] == 0 by {
                assert(image[0x450 + (i - 0x450)] == profile[0x73e + (i - 0x450)]);
            }
        },
    }
}

proof fn lemma_copied_word(
    image: Seq<u8>,
    at: int,
    source: Seq<u8>,
    from: int,
    count: int,
    offset: int,
)
    requires
        copies(image, at, source, from, count),
        0 <= offset <= count - 4,
    ensures
        word(image, at + offset) == word(source, from + offset),
{
    assert(image[at + (offset + 0)] == source[from + (offset + 0)]);
    assert(image[at + (offset + 1)] == source[from + (offset + 1)]);
    assert(image[at + (offset + 2)] == source[from + (offset + 2)]);
    assert(image[at + (offset + 3)] == source[from + (offset + 3)]);
}

proof fn lemma_copied_half(
    image: Seq<u8>,
    at: int,
    source: Seq<u8>,
    from: int,
    count: int,
    offset: int,
)
    requires
        copies(image, at, source, from, count),
        0 <= offset <= count - 2,
    ensures
        half(image, at + offset) == half(source, from + offset),
        image[at + offset] == source[from + offset],
        image[at + offset + 1] == source[from + offset + 1],
{
    assert(image[at + (offset + 0)] == source[from + (offset + 0)]);
    assert(image[at + (offset + 1)] == source[from + (offset + 1)]);
}

proof fn lemma_moved_steps(image: Seq<u8>, at: int, source: Seq<u8>, from: int, capabilities: int)
    requires
        has_steps(source, from, capabilities),
        copies(image, at, source, from, 0x10),
    ensures
        has_steps(image, at, capabilities),
{
    assert(image[at + 0] == source[from + 0]);
    assert(image[at + 1] == source[from + 1]);
    assert(image[at + 2] == source[from + 2]);
    assert(image[at + 3] == source[from + 3]);
    assert forall|i: int| at <= i < at + 16 implies #[trigger] image[i] == source[i - at + from] by {
        assert(image[at + (i - at)] == source[from + (i - at)]);
    }
}

/// The runtime profile of a new project states where the last data region of the
/// device ends, in 32 bits: no region that has bytes ends behind it, and one ends
/// there, unless the device has no region.
pub proof fn law_profile_states_the_end_of_the_device(
    device: DeviceRecordView,
    package: PackageRecordView,
    configuration: Option<ConfigurationView>,
    operation: ParameterOperation,
    region: u32,
)
    requires
        device.raw.len() == 0x90,
        configuration matches Some(values) ==> values.default_block_0.len() == 0x40
            && values.default_block_1.len() == 0x40,
    ensures
        ({
            let raw = device.raw;
            let end = word(
                project_profile(device, package, configuration, operation, region),
                0x45c,
            );
            let first = (word(raw, 0x34) + word(raw, 0x30)) % 0x1_0000_0000;
            let second = (word(raw, 0x3c) + word(raw, 0x38)) % 0x1_0000_0000;
            &&& word(raw, 0x30) != 0 ==> first <= end
            &&& word(raw, 0x38) != 0 ==> second <= end
            &&& end == 0 || (word(raw, 0x30) != 0 && end == first) || (word(raw, 0x38) != 0 && end
                == second)
        }),
{
    lemma_profile_end(device, package);
    lemma_profile_start_length(device);
    lemma_profile_device_length(device, package);
    lemma_profile_schedule_length(device, configuration, operation, region);
    let profile = project_profile(device, package, configuration, operation, region);
    let part = profile_device(device, package);
    assert(profile[0x45c] == part[0x6c] && profile[0x45d] == part[0x6d] && profile[0x45e]
        == part[0x6e] && profile[0x45f] == part[0x6f]);
}

/// A path that fits a field stays as it is. Of one that does not, the part behind the
/// last separator is kept, or, if it has none, as many of its last bytes as fit.
pub proof fn law_kept_paths(path: Seq<u8>, capacity: nat)
    requires
        capacity > 0,
    ensures
        ({
            let kept = kept_path(path, capacity);
            let cut = path.len() - kept.len();
            &&& cut >= 0 && kept == path.skip(cut)
            &&& path.len() < capacity ==> cut == 0
            &&& path.len() >= capacity && cut > 0 && kept.len() != capacity - 1 ==> path[cut - 1]
                == 0x2f || path[cut - 1] == 0x5c
            &&& path.len() >= capacity && (exists|i: int|
                0 <= i < path.len() && (#[trigger] path[i] == 0x2f || path[i] == 0x5c)) ==> {
                &&& forall|i: int|
                    0 <= i < kept.len() ==> #[trigger] kept[i] != 0x2f && kept[i] != 0x5c
                &&& cut > 0 && (path[cut - 1] == 0x2f || path[cut - 1] == 0x5c)
            }
            &&& path.len() >= capacity && !(exists|i: int|
                0 <= i < path.len() && (#[trigger] path[i] == 0x2f || path[i] == 0x5c))
                ==> kept.len() == capacity - 1
        }),
{
    lemma_file_name(path);
    let start = file_name_start(path) as int;
    if path.len() < capacity {
        assert(path.skip(0) =~= path);
    } else if exists|i: int| 0 <= i < path.len() && is_separator(#[trigger] path[i]) {
        let i = choose|i: int| 0 <= i < path.len() && is_separator(#[trigger] path[i]);
        assert(start > i);
        let kept = path.skip(start);
        assert forall|j: int| 0 <= j < kept.len() implies #[trigger] kept[j] != 0x2f && kept[j]
            != 0x5c by {
            assert(kept[j] == path[start + j]);
        }
    } else {
        assert forall|i: int| 0 <= i < path.len() implies !(#[trigger] path[i] == 0x2f || path[i]
            == 0x5c) by {
            assert(!is_separator(path[i]));
        }
    }
}

proof fn lemma_file_name(path: Seq<u8>)
    ensures
        file_name_start(path) <= path.len(),
        forall|i: int|
            file_name_start(path) <= i < path.len() ==> !is_separator(#[trigger] path[i]),
        file_name_start(path) > 0 ==> is_separator(path[file_name_start(path) - 1]),
    decreases path.len(),
{
    if path.len() > 0 && !is_separator(path.last()) {
        let start = path.drop_last();
        lemma_file_name(start);
        assert forall|i: int| file_name_start(path) <= i < path.len() implies !is_separator(
            #[trigger] path[i],
        ) by {
            if i < start.len() {
                assert(start[i] == path[i]);
            }
        }
    }
}

/// A source becomes a project if and only if the region is there, the source fits it,
/// and so does the source up to its last programmed byte when that is filled up to a
/// multiple of 2048.
pub proof fn law_projects_that_fit(raw: Seq<u8>, region: u32, source: Seq<u8>, end: int)
    requires
        raw.len() == 0x90,
        source.len() <= u32::MAX,
        0 <= end <= source.len(),
        end > 0 ==> source[end - 1] != 0xff,
        forall|i: int| end <= i < source.len() ==> #[trigger] source[i] == 0xff,
    ensures
        ({
            let capacity = if region == 0 {
                word(raw, 0x30)
            } else if region == 1 {
                word(raw, 0x38)
            } else {
                0
            };
            let filled = (end + 2047) / 2048 * 2048;
            &&& end + 2047 <= usize::MAX ==> (prepared_project(raw, region, source) is Ok
                <==> capacity > 0 && source.len() <= capacity && filled <= capacity)
            &&& prepared_project(raw, region, source) matches Ok(project) ==> project.end == filled
        }),
{
    law_fields_are_low_byte_first(raw, 0x30);
    law_fields_are_low_byte_first(raw, 0x38);
    lemma_last_programmed(source, end);
}

proof fn lemma_last_programmed(source: Seq<u8>, end: int)
    requires
        0 <= end <= source.len(),
        end > 0 ==> source[end - 1] != 0xff,
        forall|i: int| end <= i < source.len() ==> #[trigger] source[i] == 0xff,
    ensures
        programmed_end(source) == end,
    decreases source.len(),
{
    if source.len() > 0 {
        if end < source.len() {
            assert(source[source.len() - 1] == 0xff);
            let start = source.drop_last();
            assert forall|i: int| end <= i < start.len() implies #[trigger] start[i] == 0xff by {
                assert(start[i] == source[i]);
            }
            lemma_last_programmed(start, end);
        }
    }
}

} // verus!
