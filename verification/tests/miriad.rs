use rubbl::miriad::header::{encode_header, parse_header, HeaderItem};
use rubbl::miriad::mapped::MiriadMappedType;
use rubbl::miriad::mask::{MaskDecoder, MaskEncoder};
use rubbl::miriad::visdata::{
    decode_baseline_number, encode_baseline_number, Decoder, Encoder, ObsType,
};
use rubbl::miriad::{InternalItemInfo, ItemStorage, MiriadFormatError, Type, MAX_ITEM_NAME_LENGTH};

#[test]
fn type_codes_and_abbreviations() {
    assert_eq!(Type::try_from_i32(2), Ok(Type::Int32));
    assert_eq!(Type::try_from_i32(8), Ok(Type::Int64));
    assert_eq!(Type::try_from_i32(9), Err(MiriadFormatError::IllegalTypeCode(9)));
    assert_eq!(Type::try_from_abbrev("j"), Ok(Type::Int16));
    assert_eq!(Type::try_from_abbrev("a"), Ok(Type::Text));
    assert_eq!(
        Type::try_from_abbrev("q"),
        Err(MiriadFormatError::IllegalTypeAbbrev("q".to_string()))
    );
    assert_eq!(Type::Complex64.abbrev_char(), 'c');
    assert_eq!(Type::Binary.abbrev_char(), '?');
    assert_eq!(Type::Int64.size(), 8);
    assert_eq!(Type::Complex64.size(), 8);
    assert_eq!(Type::Complex64.alignment(), 4);
    assert_eq!(Type::Float64.alignment(), 8);
    assert_eq!(Type::Int16.name(), "int16");
    assert_eq!(Type::Int16.code(), 3);
    assert_eq!(MAX_ITEM_NAME_LENGTH, 8);
}

#[test]
fn item_info_counts() {
    let i = InternalItemInfo::new_small(Type::Int32, vec![0, 0, 0, 1, 0, 0, 0, 2]);
    assert_eq!(i.n_vals(), 2);
    let t = InternalItemInfo::new_small(Type::Text, b"hello".to_vec());
    assert_eq!(t.n_vals(), 1);
}

#[test]
fn large_item_detection() {
    let i = InternalItemInfo::new_large(&[0, 0, 0, 2], 4 + 12).unwrap();
    assert_eq!(i.ty, Type::Int32);
    assert_eq!(i.storage, ItemStorage::Large(3));
    let t = InternalItemInfo::new_large(b"i co", 20).unwrap();
    assert_eq!(t.ty, Type::Text);
    assert_eq!(t.storage, ItemStorage::Large(20));
    let short = InternalItemInfo::new_large(b"ab", 2).unwrap();
    assert_eq!(short.ty, Type::Binary);
    assert_eq!(short.storage, ItemStorage::Large(2));
    assert_eq!(
        InternalItemInfo::new_large(&[0, 0, 0, 8], 4 + 12).unwrap_err(),
        MiriadFormatError::NonIntegralElements
    );
    let b = InternalItemInfo::new_large(&[0xff, 0, 0, 1], 10).unwrap();
    assert_eq!(b.ty, Type::Binary);
    assert_eq!(b.storage, ItemStorage::Large(6));
}

fn item(name: &str, ty: Type, data: &[u8]) -> HeaderItem {
    HeaderItem { name: name.to_string(), ty, data: data.to_vec() }
}

#[test]
fn header_round_trip() {
    let items = vec![
        item("vislen", Type::Int64, &[0, 0, 0, 0, 0, 0, 1, 0]),
        item("ncorr", Type::Int32, &[0, 0, 0, 7]),
        item("obstype", Type::Text, b"crosscorrelation"),
        item("flag", Type::Int8, &[1]),
        item("empty", Type::Binary, &[]),
    ];
    let bytes = encode_header(&items);
    assert_eq!(bytes.len() % 16, 0);
    let back = parse_header(&bytes).unwrap();
    assert_eq!(back.len(), items.len());
    for (a, b) in items.iter().zip(back.iter()) {
        assert_eq!(a.name, b.name);
        assert_eq!(a.ty, b.ty);
        assert_eq!(a.data, b.data);
    }
}

#[test]
fn header_layout() {
    let bytes = encode_header(&[item("ncorr", Type::Int64, &[0, 0, 0, 0, 0, 0, 0, 9])]);
    // 16-byte head, type code, 4 bytes of padding to 8, then the data.
    assert_eq!(bytes.len(), 16 + 4 + 4 + 8);
    assert_eq!(&bytes[..5], b"ncorr");
    assert_eq!(bytes[15], 16);
    assert_eq!(&bytes[16..20], &[0, 0, 0, 8]);
    assert_eq!(bytes[31], 9);
}

#[test]
fn header_errors() {
    let mut rec = vec![0u8; 16];
    rec[..3].copy_from_slice(b"abc");
    rec[15] = 8;
    let mut bytes = rec.clone();
    bytes.extend_from_slice(&[0, 0, 0, 42, 1, 2, 3, 4]);
    assert_eq!(parse_header(&bytes).unwrap_err(), MiriadFormatError::IllegalTypeCode(42));
    assert_eq!(parse_header(&bytes[..10]).unwrap_err(), MiriadFormatError::UnexpectedEof);
    let mut bad_name = rec.clone();
    bad_name[0] = 0xff;
    bad_name[15] = 0;
    assert_eq!(parse_header(&bad_name).unwrap_err(), MiriadFormatError::NameNotUtf8);
    let mut short = rec.clone();
    short[15] = 2;
    short.extend_from_slice(&[0, 0, 0, 2]);
    assert_eq!(parse_header(&short).unwrap_err(), MiriadFormatError::HeaderItemTooShort);
    let mut odd = rec.clone();
    odd[15] = 7;
    odd.extend_from_slice(&[0, 0, 0, 3, 1, 2, 3]);
    assert_eq!(
        parse_header(&odd).unwrap_err(),
        MiriadFormatError::IllegalArraySize(3, Type::Int16)
    );
    assert_eq!(parse_header(&[]).unwrap().len(), 0);
}

#[test]
fn int8_header_items_longer_than_one_read_as_text() {
    let bytes = encode_header(&[item("word", Type::Int8, b"ab")]);
    let back = parse_header(&bytes).unwrap();
    assert_eq!(back[0].ty, Type::Text);
}

#[test]
fn mapped_type_round_trips() {
    let mut buf = Vec::new();
    i16::encode_values_into_vec(&[1, -2, 300], &mut buf);
    assert_eq!(buf, vec![0, 1, 0xff, 0xfe, 1, 44]);
    let mut back: Vec<i16> = Vec::new();
    i16::decode_buf_into_vec(&buf, &mut back);
    assert_eq!(back, vec![1, -2, 300]);

    i32::encode_values_into_vec(&[-1, 65536], &mut buf);
    assert_eq!(buf, vec![0xff, 0xff, 0xff, 0xff, 0, 1, 0, 0]);
    assert_eq!(i32::vec_from_miriad_bytes(&buf).unwrap(), vec![-1, 65536]);

    i64::encode_values_into_vec(&[1 << 40], &mut buf);
    assert_eq!(buf, vec![0, 0, 1, 0, 0, 0, 0, 0]);
    assert_eq!(i64::vec_from_miriad_bytes(&buf).unwrap(), vec![1 << 40]);

    i8::encode_values_into_vec(&[-1, 5], &mut buf);
    assert_eq!(buf, vec![255, 5]);
    assert_eq!(i8::vec_from_miriad_bytes(&buf).unwrap(), vec![-1, 5]);

    u8::encode_values_into_vec(&[9, 8], &mut buf);
    assert_eq!(u8::vec_from_miriad_bytes(&buf).unwrap(), vec![9, 8]);

    String::encode_values_into_vec(&["héllo".to_string()], &mut buf);
    assert_eq!(buf, "héllo".as_bytes().to_vec());
    assert_eq!(String::vec_from_miriad_bytes(&buf).unwrap(), vec!["héllo".to_string()]);
    assert_eq!(String::get_miriad_count(&["héllo".to_string()]), 6);
    assert_eq!(i16::get_miriad_count(&[1, 2, 3]), 3);
    assert_eq!(String::miriad_type(), Type::Text);
    assert_eq!(i64::miriad_type(), Type::Int64);
}

#[test]
fn mapped_type_read_errors() {
    assert_eq!(i16::vec_from_miriad_bytes(&[1, 2, 3]).unwrap_err(), MiriadFormatError::UnexpectedEof);
    assert_eq!(i32::vec_from_miriad_bytes(&[1, 2]).unwrap_err(), MiriadFormatError::UnexpectedEof);
    assert_eq!(i64::vec_from_miriad_bytes(&[1]).unwrap_err(), MiriadFormatError::UnexpectedEof);
    assert_eq!(String::vec_from_miriad_bytes(&[0xff]).unwrap_err(), MiriadFormatError::TextNotUtf8);
    let mut v: Vec<String> = Vec::new();
    String::decode_buf_into_vec(&[b'a', 0xff], &mut v);
    assert_eq!(v, vec!["a\u{fffd}".to_string()]);
}

#[test]
fn mask_encode_then_decode() {
    let mut enc = MaskEncoder::new();
    let words = enc.append_mask(&[true, false, true]);
    // The first word of a stream is a full word of clear bits.
    assert_eq!(words, vec![0]);
    let last = enc.close();
    assert_eq!(last, Some(5));
    assert_eq!(enc.close(), None);

    let mut dec = MaskDecoder::new();
    assert_eq!(dec.words_needed(34), 2);
    let mut stream = words.clone();
    stream.push(last.unwrap());
    let bits = dec.expand(34, &stream);
    assert_eq!(bits.len(), 34);
    assert!(bits[..31].iter().all(|b| !*b));
    assert_eq!(&bits[31..], &[true, false, true]);
}

#[test]
fn mask_long_runs() {
    let mut enc = MaskEncoder::new();
    let flags: Vec<bool> = (0..100).map(|i| i % 3 == 0).collect();
    let mut words = enc.append_mask(&flags);
    if let Some(w) = enc.close() {
        words.push(w);
    }
    assert_eq!(words.len(), 5);
    let mut dec = MaskDecoder::new();
    let skip = dec.expand(31, &words[..1]);
    assert_eq!(skip.len(), 31);
    let n = dec.words_needed(100);
    assert_eq!(n, 4);
    let bits = dec.expand(100, &words[1..]);
    assert_eq!(bits, flags);
}

#[test]
fn baseline_numbers() {
    assert_eq!(encode_baseline_number(0, 1), Ok(258));
    assert_eq!(decode_baseline_number(258), Ok((0, 1)));
    assert_eq!(encode_baseline_number(3, 300), Ok(2048 * 4 + 301 + 65536));
    assert_eq!(decode_baseline_number(2048 * 4 + 301 + 65536), Ok((3, 300)));
    assert_eq!(encode_baseline_number(2048, 2048), Err(MiriadFormatError::AntennaTooLarge));
    assert_eq!(encode_baseline_number(5, 4), Err(MiriadFormatError::AntennaOrder));
    assert_eq!(decode_baseline_number(10), Err(MiriadFormatError::IllegalBaseline));
    assert_eq!(decode_baseline_number(256 * 5 + 4), Err(MiriadFormatError::AntennaOrder));
    assert_eq!(decode_baseline_number(-3), Err(MiriadFormatError::IllegalBaseline));
    // The largest antennas come back too.
    let n = encode_baseline_number(0, 2047).unwrap();
    assert_eq!(n, 69632);
    assert_eq!(decode_baseline_number(n as isize), Ok((0, 2047)));
    let n = encode_baseline_number(2047, 2047).unwrap();
    assert_eq!(decode_baseline_number(n as isize), Ok((2047, 2047)));
    let n = encode_baseline_number(254, 254).unwrap();
    assert_eq!(decode_baseline_number(n as isize), Ok((254, 254)));
    let n = encode_baseline_number(254, 255).unwrap();
    assert_eq!(decode_baseline_number(n as isize), Ok((254, 255)));
}

#[test]
fn obstype_values() {
    assert_eq!(ObsType::from_obstype("autocorrelation"), Ok(ObsType::Auto));
    assert_eq!(ObsType::from_obstype("crosscorrelation"), Ok(ObsType::Cross));
    assert_eq!(ObsType::from_obstype("mixed-auto-cross"), Ok(ObsType::MixedAutoCross));
    assert_eq!(
        ObsType::from_obstype("other"),
        Err(MiriadFormatError::UnexpectedObstype("other".to_string()))
    );
}

fn vartable() -> Vec<String> {
    vec!["i nschan".to_string(), "j corr".to_string(), "a source".to_string(), "i ant".to_string()]
}

#[test]
fn vartable_errors() {
    assert_eq!(
        Decoder::create(8, &["i".to_string()], Vec::new()).unwrap_err(),
        MiriadFormatError::IllegalVartableLine("i".to_string())
    );
    assert_eq!(
        Decoder::create(8, &["i a b".to_string()], Vec::new()).unwrap_err(),
        MiriadFormatError::IllegalVartableLine("i a b".to_string())
    );
    assert_eq!(
        Decoder::create(8, &["q name".to_string()], Vec::new()).unwrap_err(),
        MiriadFormatError::IllegalTypeAbbrev("q".to_string())
    );
    let many: Vec<String> = (0..256).map(|i| format!("i v{}", i)).collect();
    assert_eq!(Decoder::create(8, &many, Vec::new()).unwrap_err(), MiriadFormatError::TooManyVariables);
    let ok: Vec<String> = (0..255).map(|i| format!("i v{}", i)).collect();
    assert!(Decoder::create(8, &ok, Vec::new()).is_ok());
}

#[test]
fn uv_records_round_trip() {
    let template = Decoder::create(8, &vartable(), Vec::new()).unwrap();
    let (mut enc, vt) = Encoder::new_like(&template);
    assert_eq!(vt, b"i nschan\nj corr\na source\ni ant\n".to_vec());

    let mut stream = Vec::new();
    stream.extend(enc.write("nschan", &[4i32]).unwrap());
    stream.extend(enc.write("corr", &[1i16, -2, 3, 4]).unwrap());
    stream.extend(enc.write("source", &["3c286".to_string()]).unwrap());
    stream.extend(enc.finish_record());
    stream.extend(enc.write_scalar("ant", 7i32).unwrap());
    stream.extend(enc.write("corr", &[5i16, 6, 7, 8]).unwrap());
    stream.extend(enc.finish_record());
    let (items, offset) = enc.flush();
    assert_eq!(offset as usize, stream.len());
    assert_eq!(items.len(), 3);
    assert_eq!(items[0].name, "ncorr");
    let mut ncorr: Vec<i64> = Vec::new();
    i64::decode_buf_into_vec(&items[0].data, &mut ncorr);
    assert_eq!(ncorr, vec![8]);
    let mut vislen: Vec<i64> = Vec::new();
    i64::decode_buf_into_vec(&items[2].data, &mut vislen);
    assert_eq!(vislen, vec![stream.len() as i64 + 4]);

    let mut dec = Decoder::create(vislen[0], &vartable(), stream).unwrap();
    let corr = dec.lookup_variable("corr").unwrap();
    let src = dec.lookup_variable("source").unwrap();
    let nschan = dec.lookup_variable("nschan").unwrap();
    let ant = dec.lookup_variable("ant").unwrap();
    assert!(dec.lookup_variable("nope").is_none());

    assert_eq!(dec.next(), Ok(true));
    let mut c: Vec<i16> = Vec::new();
    dec.get_data(corr, &mut c);
    assert_eq!(c, vec![1, -2, 3, 4]);
    assert_eq!(dec.get_scalar::<String>(src), "3c286".to_string());
    assert_eq!(dec.get_scalar::<i32>(nschan), 4);
    assert!(dec.get_var(corr).just_updated());
    assert!(!dec.get_var(ant).just_updated());
    assert_eq!(dec.get_var(corr).n_vals(), 4);
    assert_eq!(dec.get_var(ant).n_vals(), -1);

    assert_eq!(dec.next(), Ok(false));
    dec.get_data(corr, &mut c);
    assert_eq!(c, vec![5, 6, 7, 8]);
    assert_eq!(dec.get_scalar::<i32>(ant), 7);
    assert!(!dec.get_var(src).just_updated());
    assert_eq!(dec.position(), dec.visdata_bytes());

    let mut names = Vec::new();
    let mut it = dec.variables();
    while let Some(v) = it.next() {
        names.push(v.name().to_string());
        assert_eq!(v.as_reference(), dec.lookup_variable(v.name()).unwrap());
    }
    assert_eq!(names, vec!["nschan", "corr", "source", "ant"]);
    assert_eq!(dec.get_var(src).type_(), Type::Text);
}

#[test]
fn uv_encoder_errors() {
    let template = Decoder::create(8, &vartable(), Vec::new()).unwrap();
    let (mut enc, _) = Encoder::new_like(&template);
    assert_eq!(
        enc.write("nope", &[1i32]).unwrap_err(),
        MiriadFormatError::NoSuchVariable("nope".to_string())
    );
    assert_eq!(
        enc.write::<i32>("nschan", &[]).unwrap_err(),
        MiriadFormatError::ZeroSizeArray("nschan".to_string())
    );
    assert_eq!(
        enc.write("corr", &[1i32]).unwrap_err(),
        MiriadFormatError::TypeMismatch(Type::Int16, Type::Int32)
    );
}

#[test]
fn uv_write_var_copies_between_streams() {
    let template = Decoder::create(8, &vartable(), Vec::new()).unwrap();
    let (mut enc, _) = Encoder::new_like(&template);
    let mut stream = Vec::new();
    stream.extend(enc.write("corr", &[9i16, 10]).unwrap());
    stream.extend(enc.finish_record());
    let n = stream.len() as i64 + 4;
    let mut dec = Decoder::create(n, &vartable(), stream).unwrap();
    assert_eq!(dec.next(), Ok(false));
    let corr = dec.lookup_variable("corr").unwrap();

    let (mut enc2, _) = Encoder::new_like(&template);
    let mut out = enc2.write_var(dec.get_var(corr)).unwrap();
    out.extend(enc2.finish_record());
    let mut dec2 = Decoder::create(out.len() as i64 + 4, &vartable(), out).unwrap();
    assert_eq!(dec2.next(), Ok(false));
    let mut c: Vec<i16> = Vec::new();
    dec2.get_data(corr, &mut c);
    assert_eq!(c, vec![9, 10]);
}

#[test]
fn uv_decoder_errors() {
    let bad_code = vec![0u8, 0, 7, 0];
    let mut dec = Decoder::create(100, &vartable(), bad_code).unwrap();
    assert_eq!(dec.next(), Err(MiriadFormatError::UnrecognizedRecordCode(7)));
    let bad_var = vec![9u8, 0, 1, 0];
    let mut dec = Decoder::create(100, &vartable(), bad_var).unwrap();
    assert_eq!(dec.next(), Err(MiriadFormatError::TooLargeVariableNumber));
    let neg = vec![0u8, 0, 0, 0, 0xff, 0xff, 0xff, 0xff];
    let mut dec = Decoder::create(100, &vartable(), neg).unwrap();
    assert_eq!(dec.next(), Err(MiriadFormatError::NegativeDataSize));
    let odd = vec![1u8, 0, 0, 0, 0, 0, 0, 3];
    let mut dec = Decoder::create(100, &vartable(), odd).unwrap();
    assert_eq!(dec.next(), Err(MiriadFormatError::NonIntegralElements));
    let mut dec = Decoder::create(100, &vartable(), vec![0u8, 0]).unwrap();
    assert_eq!(dec.next(), Err(MiriadFormatError::UnexpectedEof));
}

#[test]
fn small_item_set_written_and_read_back() {
    let mut info = InternalItemInfo::new_small(Type::Binary, Vec::new());
    info.set_small_values("telescop", &[3i32, -5, 70000]).unwrap();
    assert_eq!(info.ty, Type::Int32);
    assert_eq!(info.n_vals(), 3);
    let data = match &info.storage {
        ItemStorage::Small(d) => d.clone(),
        ItemStorage::Large(_) => panic!("small item expected"),
    };
    let items = vec![item("nschan", Type::Int64, &[0, 0, 0, 0, 0, 0, 0, 4]), item("telescop", info.ty, &data)];
    let back = parse_header(&encode_header(&items)).unwrap();
    assert_eq!(back.len(), 2);
    assert_eq!(back[1].name, "telescop");
    assert_eq!(back[1].ty, Type::Int32);
    assert_eq!(i32::vec_from_miriad_bytes(&back[1].data).unwrap(), vec![3, -5, 70000]);
}
