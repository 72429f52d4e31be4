use pco::bin::BinCompressionInfo;
use pco::bin::BinDecompressionInfo;
use pco::bit_reader::BitReader;
use pco::errors::PcoError;
use pco::modes::classic::ClassicBinOptAccumulator;
use pco::modes::classic::ClassicMode;
use pco::modes::gcd::GcdBinOptAccumulator;
use pco::modes::gcd::GcdMode;
use pco::modes::gcd::pair_gcd;
use pco::modes::mode::FloatMultConfig;
use pco::modes::mode::Mode;

fn float_mult_mode() -> Mode<u64> {
    Mode::FloatMult(FloatMultConfig {
        base_bits: 0x3ff0_0000_0000_0000,
        adj_bits: 8,
    })
}

#[test]
fn test_n_streams() {
    assert_eq!(Mode::<u64>::Classic.n_streams(), 1);
    assert_eq!(Mode::<u64>::Gcd.n_streams(), 1);
    assert_eq!(float_mult_mode().n_streams(), 2);
}

#[test]
fn test_stream_delta_order() {
    assert_eq!(Mode::<u64>::Classic.stream_delta_order(0, 4), 4);
    assert_eq!(Mode::<u64>::Gcd.stream_delta_order(0, 4), 4);
    assert_eq!(float_mult_mode().stream_delta_order(0, 4), 4);
    assert_eq!(float_mult_mode().stream_delta_order(1, 4), 0);
    assert_eq!(float_mult_mode().stream_delta_order(1, 0), 0);
}

#[test]
fn test_default_mode_is_classic() {
    assert_eq!(Mode::<u64>::default(), Mode::<u64>::Classic);
    assert_eq!(Mode::<u32>::default(), Mode::<u32>::Classic);
}

#[test]
fn test_classic_round_trip() {
    let cbin = BinCompressionInfo::<u64> {
        count: 3,
        weight: 3,
        lower: 10,
        upper: 25,
        gcd: 1,
        offset_bits: 4,
    };
    let offset = ClassicMode::calc_offset(17u64, &cbin);
    assert_eq!(offset, 7);

    let dbin = BinDecompressionInfo::<u64> {
        lower: 10,
        offset_bits: 4,
        gcd: 1,
    };
    let mut reader = BitReader::new(vec![offset as u8]);
    let value = ClassicMode::decompress_unsigned(&dbin, &mut reader).unwrap();
    assert_eq!(value, 17);

    let mut reader = BitReader::new(vec![offset as u8]);
    let value = ClassicMode::unchecked_decompress_unsigned(&dbin, &mut reader);
    assert_eq!(value, 17);
}

#[test]
fn test_gcd_round_trip() {
    let cbin = BinCompressionInfo::<u64> {
        count: 4,
        weight: 4,
        lower: 10,
        upper: 25,
        gcd: 5,
        offset_bits: 2,
    };
    let offset = GcdMode::calc_offset(25u64, &cbin);
    assert_eq!(offset, 3);

    let dbin = BinDecompressionInfo::<u64> {
        lower: 10,
        offset_bits: 2,
        gcd: 5,
    };
    let mut reader = BitReader::new(vec![offset as u8]);
    let value = GcdMode::decompress_unsigned(&dbin, &mut reader).unwrap();
    assert_eq!(value, 25);

    let mut reader = BitReader::new(vec![offset as u8]);
    let value = GcdMode::unchecked_decompress_unsigned(&dbin, &mut reader);
    assert_eq!(value, 25);
}

#[test]
fn test_round_trip_u32() {
    let cbin = BinCompressionInfo::<u32> {
        count: 1,
        weight: 1,
        lower: 100,
        upper: 110,
        gcd: 1,
        offset_bits: 4,
    };
    let offset = ClassicMode::calc_offset(106u32, &cbin);
    assert_eq!(offset, 6);

    let dbin = BinDecompressionInfo::<u32> {
        lower: 100,
        offset_bits: 4,
        gcd: 1,
    };
    let mut reader = BitReader::new(vec![offset as u8]);
    let value = ClassicMode::decompress_unsigned(&dbin, &mut reader).unwrap();
    assert_eq!(value, 106);
}

#[test]
fn test_decompress_insufficient_data() {
    let dbin = BinDecompressionInfo::<u64> {
        lower: 0,
        offset_bits: 9,
        gcd: 1,
    };
    let mut reader = BitReader::new(vec![0xff]);
    let r = ClassicMode::decompress_unsigned(&dbin, &mut reader);
    assert_eq!(r, Err(PcoError::InsufficientData));

    let gbin = BinDecompressionInfo::<u64> {
        lower: 0,
        offset_bits: 9,
        gcd: 3,
    };
    let mut reader = BitReader::new(vec![0xff]);
    let r = GcdMode::decompress_unsigned(&gbin, &mut reader);
    assert_eq!(r, Err(PcoError::InsufficientData));
}

#[test]
fn test_decompress_invalid_offset() {
    // lower + offset would leave the 64-bit domain
    let dbin = BinDecompressionInfo::<u64> {
        lower: u64::MAX - 2,
        offset_bits: 4,
        gcd: 1,
    };
    let mut reader = BitReader::new(vec![0x05]);
    let r = ClassicMode::decompress_unsigned(&dbin, &mut reader);
    assert_eq!(r, Err(PcoError::InvalidOffset));

    // in range: lower + 2 stays representable
    let mut reader = BitReader::new(vec![0x02]);
    let r = ClassicMode::decompress_unsigned(&dbin, &mut reader);
    assert_eq!(r, Ok(u64::MAX));

    // lower + offset * gcd would leave the 32-bit domain
    let gbin = BinDecompressionInfo::<u32> {
        lower: u32::MAX - 100,
        offset_bits: 4,
        gcd: 50,
    };
    let mut reader = BitReader::new(vec![0x03]);
    let r = GcdMode::decompress_unsigned(&gbin, &mut reader);
    assert_eq!(r, Err(PcoError::InvalidOffset));

    let mut reader = BitReader::new(vec![0x02]);
    let r = GcdMode::decompress_unsigned(&gbin, &mut reader);
    assert_eq!(r, Ok(u32::MAX));
}

#[test]
fn test_bit_reader_across_bytes() {
    let mut reader = BitReader::new(vec![0xad, 0x06]);
    assert_eq!(reader.bits_remaining(), 16);
    assert_eq!(reader.read_uint(4), Ok(13));
    assert_eq!(reader.read_uint(7), Ok(106));
    assert_eq!(reader.bits_remaining(), 5);
    assert_eq!(reader.read_uint(6), Err(PcoError::InsufficientData));
    assert_eq!(reader.read_uint(5), Ok(0));
}

#[test]
fn test_decompress_zero_width_bin() {
    // a bin holding a single value needs no offset bits at all
    let dbin = BinDecompressionInfo::<u64> {
        lower: 42,
        offset_bits: 0,
        gcd: 1,
    };
    let mut reader = BitReader::new(vec![]);
    assert_eq!(ClassicMode::decompress_unsigned(&dbin, &mut reader), Ok(42));
    let mut reader = BitReader::new(vec![]);
    assert_eq!(
        ClassicMode::unchecked_decompress_unsigned(&dbin, &mut reader),
        42
    );
}

#[test]
fn test_pair_gcd() {
    assert_eq!(pair_gcd(12, 18), 6);
    assert_eq!(pair_gcd(18, 12), 6);
    assert_eq!(pair_gcd(0, 5), 5);
    assert_eq!(pair_gcd(7, 0), 7);
    assert_eq!(pair_gcd(0, 0), 0);
    assert_eq!(pair_gcd(17, 13), 1);
}

#[test]
fn test_gcd_accumulator_order_insensitive() {
    let bin = |gcd: u64| BinCompressionInfo::<u64> {
        count: 1,
        weight: 1,
        lower: 0,
        upper: 0,
        gcd,
        offset_bits: 0,
    };
    let mut acc1 = GcdBinOptAccumulator::default();
    GcdMode::combine_bin_opt_acc(&bin(12), &mut acc1);
    GcdMode::combine_bin_opt_acc(&bin(18), &mut acc1);
    GcdMode::combine_bin_opt_acc(&bin(8), &mut acc1);
    let mut acc2 = GcdBinOptAccumulator::default();
    GcdMode::combine_bin_opt_acc(&bin(8), &mut acc2);
    GcdMode::combine_bin_opt_acc(&bin(18), &mut acc2);
    GcdMode::combine_bin_opt_acc(&bin(12), &mut acc2);
    assert_eq!(acc1.running_gcd, Some(2));
    assert_eq!(acc2.running_gcd, Some(2));
}

#[test]
fn test_fill_optimized_compression_info() {
    let mut cbin = BinCompressionInfo::<u64> {
        count: 3,
        weight: 3,
        lower: 10,
        upper: 25,
        gcd: 1,
        offset_bits: 0,
    };
    ClassicMode::fill_optimized_compression_info(ClassicBinOptAccumulator::default(), &mut cbin);
    assert_eq!(cbin.offset_bits, 4);

    let mut gbin = BinCompressionInfo::<u64> {
        count: 4,
        weight: 4,
        lower: 10,
        upper: 25,
        gcd: 1,
        offset_bits: 0,
    };
    let acc = GcdBinOptAccumulator {
        running_gcd: Some(5),
    };
    GcdMode::fill_optimized_compression_info(acc, &mut gbin);
    assert_eq!(gbin.gcd, 5);
    assert_eq!(gbin.offset_bits, 2);

    let mut ubin = BinCompressionInfo::<u64> {
        count: 1,
        weight: 1,
        lower: 3,
        upper: 3,
        gcd: 1,
        offset_bits: 9,
    };
    GcdMode::fill_optimized_compression_info(GcdBinOptAccumulator::default(), &mut ubin);
    assert_eq!(ubin.gcd, 1);
    assert_eq!(ubin.offset_bits, 0);
}
