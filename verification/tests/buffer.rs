use audio_pcm::buffer::{F32_BYTES, I16_BYTES};
use audio_pcm::{
    alloc_f32, alloc_i16, array_bytes, custom_alloc, dealloc_f32, dealloc_i16,
    process_audio_simd,
};

#[test]
fn array_bytes_multiplies() {
    assert_eq!(array_bytes(0, 2), Some(0));
    assert_eq!(array_bytes(12, 2), Some(24));
    assert_eq!(array_bytes(12, 4), Some(48));
    assert_eq!(array_bytes(1000, 1), Some(1000));
    assert_eq!(array_bytes(7, 0), Some(0));
    assert_eq!(array_bytes(12, I16_BYTES), Some(24));
    assert_eq!(array_bytes(12, F32_BYTES), Some(48));
    assert_eq!(I16_BYTES, std::mem::size_of::<i16>());
    assert_eq!(F32_BYTES, std::mem::size_of::<f32>());
}

#[test]
fn array_bytes_refuses_what_no_allocation_can_hold() {
    let most = isize::MAX as usize;
    assert_eq!(array_bytes(most, 1), Some(most));
    assert_eq!(array_bytes(most + 1, 1), None);
    assert_eq!(array_bytes(most / 2, 2), Some(most - 1));
    assert_eq!(array_bytes(most / 2 + 1, 2), None);
    assert_eq!(array_bytes(most / 4, 4), Some(most - 3));
    assert_eq!(array_bytes(most / 4 + 1, 4), None);
    assert_eq!(array_bytes(usize::MAX, 2), None);
    assert_eq!(array_bytes(usize::MAX, usize::MAX), None);
    assert_eq!(array_bytes(usize::MAX, 0), Some(0));
}

#[test]
fn array_bytes_agrees_with_the_system_layout() {
    let most = isize::MAX as usize;
    for count in [0usize, 1, 12, 4096, most / 2 - 1, most / 2, most / 2 + 1, most, usize::MAX] {
        let layout = std::alloc::Layout::array::<i16>(count).ok().map(|l| l.size());
        assert_eq!(array_bytes(count, I16_BYTES), layout);
    }
    for count in [0usize, 1, 12, 4096, most / 4 - 1, most / 4, most / 4 + 1, most, usize::MAX] {
        let layout = std::alloc::Layout::array::<f32>(count).ok().map(|l| l.size());
        assert_eq!(array_bytes(count, F32_BYTES), layout);
    }
}

#[test]
fn fresh_buffers_have_the_count_asked_for() {
    for len in [0usize, 1, 3, 12, 1000] {
        let ints = alloc_i16(len);
        assert_eq!(ints.len(), len);
        assert!(ints.iter().all(|&v| v == 0));
        let floats = alloc_f32(len);
        assert_eq!(floats.len(), len);
        assert!(floats.iter().all(|&bits| bits == 0.0f32.to_bits()));
        let region = custom_alloc(len);
        assert_eq!(region.len(), len);
        assert!(region.iter().all(|&b| b == 0));
        dealloc_i16(ints, len);
        dealloc_f32(floats, len);
    }
}

#[test]
fn alloc_write_release_leaves_neighbours_intact() {
    // Buffers of varying sizes are created, filled and released in turn while
    // others stay alive; the survivors must keep what was written to them.
    let mut alive: Vec<(Vec<i16>, i16)> = Vec::new();
    for round in 0..200usize {
        let len = (round * 37) % 129 + 1;
        let mark = (round as i16) * 3 - 250;
        let mut buffer = alloc_i16(len);
        for place in buffer.iter_mut() {
            *place = mark;
        }
        alive.push((buffer, mark));
        if round % 3 == 2 {
            let (gone, _) = alive.remove(round % alive.len());
            let count = gone.len();
            dealloc_i16(gone, count);
        }
        for (buffer, mark) in alive.iter() {
            assert!(buffer.iter().all(|v| v == mark));
        }
    }
    for (buffer, _) in alive {
        let count = buffer.len();
        dealloc_i16(buffer, count);
    }
}

#[test]
fn float_buffers_round_trip_as_well() {
    let mut alive: Vec<(Vec<u32>, u32)> = Vec::new();
    for round in 0..100usize {
        let len = (round * 53) % 97;
        let mark = ((round as f32) / 100.0).to_bits();
        let mut buffer = alloc_f32(len);
        for place in buffer.iter_mut() {
            *place = mark;
        }
        alive.push((buffer, mark));
        if round % 2 == 1 {
            let (gone, _) = alive.remove(0);
            let count = gone.len();
            dealloc_f32(gone, count);
        }
        for (buffer, mark) in alive.iter() {
            assert!(buffer.iter().all(|v| v == mark));
        }
    }
}

#[test]
fn allocated_buffers_carry_a_conversion() {
    let samples = [0.7243f32, 0.1539, 0.8946, 0.3215, 0.5678];
    let count = samples.len();
    let mut input = alloc_f32(count);
    for (place, sample) in input.iter_mut().zip(samples.iter()) {
        *place = sample.to_bits();
    }
    let mut output = alloc_i16(count);
    process_audio_simd(&input, &mut output, count);
    assert_eq!(output, vec![23733, 5042, 29313, 10534, 18605]);
    dealloc_f32(input, count);
    dealloc_i16(output, count);
}

#[test]
fn opaque_region_belongs_to_the_caller() {
    let mut region = custom_alloc(64);
    for (i, byte) in region.iter_mut().enumerate() {
        *byte = i as u8;
    }
    let other = custom_alloc(64);
    assert!(other.iter().all(|&b| b == 0));
    assert_eq!(region[63], 63);
    assert_eq!(custom_alloc(0).len(), 0);
}
