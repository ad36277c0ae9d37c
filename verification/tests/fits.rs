use rubbl::fits::decoder::{FitsDecoder, LowLevelFitsItem, BLOCK_LEN};
use rubbl::fits::parser::{FitsParser, HduKind, ParserAction};
use rubbl::fits::records::{accumulate_naxis_value, parse_fixed_int, parse_fixed_string, Bitpix, FitsFormatError};

#[test]
fn fixed_int_parsing() {
    let r = b"NAXIS   =                  999 / comment                                        ";
    assert_eq!(parse_fixed_int(r).unwrap(), 999);
    let r = b"NAXIS   =           2147483647 / comment                                        ";
    assert_eq!(parse_fixed_int(r).unwrap(), 2147483647);
    let r = b"NAXIS   =          -2147483648 / comment                                        ";
    assert_eq!(parse_fixed_int(r).unwrap(), -2147483648);
    let r = b"NAXIS   =                  999/ comment                                         ";
    assert_eq!(parse_fixed_int(r).unwrap(), 999);
    let r = b"NAXIS   =                  999                  / comment                       ";
    assert_eq!(parse_fixed_int(r).unwrap(), 999);
    let r = b"NAXIS   =                 +999 / comment                                        ";
    assert_eq!(parse_fixed_int(r).unwrap(), 999);
    let r = b"NAXIS   =                 -999 / comment                                        ";
    assert_eq!(parse_fixed_int(r).unwrap(), -999);
    let r = b"NAXIS   = -0000000000000000999 / comment                                        ";
    assert_eq!(parse_fixed_int(r).unwrap(), -999);
    let r = b"NAXIS   = A                  9 / comment                                        ";
    assert!(parse_fixed_int(r).is_err());
    let r = b"NAXIS   =                    9A / comment                                       ";
    assert!(parse_fixed_int(r).is_err());
}

#[test]
fn fixed_string_parsing() {
    let r = b"XTENSION= 'hello'                                                               ";
    assert_eq!(parse_fixed_string(r).unwrap(), "hello");
    let r = b"XTENSION= ''                                                                    ";
    assert_eq!(parse_fixed_string(r).unwrap(), "");
    let r = b"XTENSION= '     '                                                               ";
    assert_eq!(parse_fixed_string(r).unwrap(), " ");
    let r = b"XTENSION= ''''                                                                  ";
    assert_eq!(parse_fixed_string(r).unwrap(), "'");
    let r = b"XTENSION= 'IMAGE   '                                                            ";
    assert_eq!(parse_fixed_string(r).unwrap(), "IMAGE");
    let r = b"XTENSION= 'looooooooooooooooooooooooooooooooooooooooooooooooooooooooooooooooong'";
    assert_eq!(
        parse_fixed_string(r).unwrap(),
        "looooooooooooooooooooooooooooooooooooooooooooooooooooooooooooooooong"
    );
    let r = b"XTENSION= 'hello'/ok comment goes here                                          ";
    assert_eq!(parse_fixed_string(r).unwrap(), "hello");
    let r = b"XTENSION= 'hello'   / ok comment goes here                                      ";
    assert_eq!(parse_fixed_string(r).unwrap(), "hello");
    let r = b"XTENSION= nope                                                                  ";
    assert!(parse_fixed_string(r).is_err());
    let r = b"XTENSION= 'OK' nope                                                             ";
    assert!(parse_fixed_string(r).is_err());
    let r = b"XTENSION= 'nope                                                                 ";
    assert!(parse_fixed_string(r).is_err());
}

fn record(text: &str) -> Vec<u8> {
    let mut r = text.as_bytes().to_vec();
    assert!(r.len() <= 80);
    r.resize(80, b' ');
    r
}

fn block(records: &[&str]) -> Vec<u8> {
    let mut b = Vec::new();
    for r in records {
        b.extend_from_slice(&record(r));
    }
    b.resize(BLOCK_LEN, b' ');
    b
}

#[test]
fn fixed_int_error_kinds() {
    let mut r = record("NAXIS   =                  999 / comment");
    r[30] = b'x';
    assert_eq!(parse_fixed_int(&r), Err(FitsFormatError::FixedIntTerminator));
    let r = b"NAXIS   =                      / comment                                        ";
    assert_eq!(parse_fixed_int(r), Err(FitsFormatError::FixedIntEmpty));
    let r = b"NAXIS   =                  9x9 / comment                                        ";
    assert_eq!(parse_fixed_int(r), Err(FitsFormatError::FixedIntDigit(b'x')));
}

#[test]
fn fixed_string_error_kinds() {
    let r = b"XTENSION= nope                                                                  ";
    assert_eq!(parse_fixed_string(r), Err(FitsFormatError::FixedStringOpening));
    let r = b"XTENSION= 'OK' nope                                                             ";
    assert_eq!(parse_fixed_string(r), Err(FitsFormatError::FixedStringAfterString(b'n')));
    let r = b"XTENSION= 'OK'x                                                                 ";
    assert_eq!(parse_fixed_string(r), Err(FitsFormatError::FixedStringAfterQuote(b'x')));
    let r = b"XTENSION= 'nope                                                                 ";
    assert_eq!(parse_fixed_string(r), Err(FitsFormatError::FixedStringUnterminated));
    let mut r = record("XTENSION= 'a");
    r[12] = 0x07;
    assert_eq!(parse_fixed_string(&r), Err(FitsFormatError::FixedStringNonPrintable));
}

#[test]
fn naxis_accumulation() {
    let mut naxis = Vec::new();
    let r = record("NAXIS1  =                   10");
    assert_eq!(accumulate_naxis_value(&r, &mut naxis), Ok(true));
    assert_eq!(naxis, vec![10]);
    let r = record("NAXIS2  =                   20");
    assert_eq!(accumulate_naxis_value(&r, &mut naxis), Ok(true));
    assert_eq!(naxis, vec![10, 20]);
    let r = record("NAXIS4  =                   20");
    assert_eq!(
        accumulate_naxis_value(&r, &mut naxis),
        Err(FitsFormatError::NaxisMisnumbered { expected: 3, got: 4 })
    );
    let r = record("NAXIS3  =                   -1");
    assert_eq!(accumulate_naxis_value(&r, &mut naxis), Err(FitsFormatError::NaxisNegative));
    let r = record("OBJECT  = 'x'");
    assert_eq!(accumulate_naxis_value(&r, &mut naxis), Ok(false));
    assert_eq!(naxis, vec![10, 20]);
}

#[test]
fn bitpix_sizes() {
    assert_eq!(Bitpix::U8.n_bytes(), 1);
    assert_eq!(Bitpix::I16.n_bytes(), 2);
    assert_eq!(Bitpix::I32.n_bytes(), 4);
    assert_eq!(Bitpix::I64.n_bytes(), 8);
    assert_eq!(Bitpix::F32.n_bytes(), 4);
    assert_eq!(Bitpix::F64.n_bytes(), 8);
}

fn simple_file() -> Vec<Vec<u8>> {
    let h = block(&[
        "SIMPLE  =                    T",
        "BITPIX  =                   16",
        "NAXIS   =                    2",
        "NAXIS1  =                   40",
        "NAXIS2  =                   50",
        "END",
    ]);
    let mut d1 = vec![1u8; BLOCK_LEN];
    d1[0] = 7;
    let d2 = vec![2u8; BLOCK_LEN];
    vec![h, d1, d2]
}

#[test]
fn decoder_streams_headers_and_data() {
    let blocks = simple_file();
    let mut dec = FitsDecoder::new();
    let mut next_block = 0;
    let mut headers = 0;
    let mut data = Vec::new();
    let mut announced = None;
    loop {
        let item = if dec.needs_block() {
            let b = blocks.get(next_block).map(|b| b.as_slice());
            next_block += 1;
            dec.next(b)
        } else {
            dec.next(None)
        };
        match item.unwrap() {
            None => break,
            Some(LowLevelFitsItem::Header(r)) => {
                assert_eq!(r.len(), 80);
                headers += 1;
            }
            Some(LowLevelFitsItem::EndOfHeaders(n)) => announced = Some(n),
            Some(LowLevelFitsItem::Data(d)) => {
                assert!(d.len() <= BLOCK_LEN);
                data.extend_from_slice(&d);
            }
            Some(LowLevelFitsItem::SpecialRecordData(_)) => panic!("no special records here"),
        }
    }
    assert_eq!(headers, 5);
    assert_eq!(announced, Some(2 * 40 * 50));
    assert_eq!(data.len(), 4000);
    assert_eq!(data[0], 7);
    assert_eq!(data[2880], 2);
}

#[test]
fn decoder_rejects_missing_simple() {
    let mut dec = FitsDecoder::new();
    let b = block(&["BITPIX  =                   16"]);
    assert_eq!(dec.next(Some(&b)).unwrap_err(), FitsFormatError::NoSimpleMarker);
}

#[test]
fn decoder_reports_truncation() {
    let blocks = simple_file();
    let mut dec = FitsDecoder::new();
    assert!(dec.next(Some(&blocks[0])).unwrap().is_some());
    let mut last = Ok(None);
    for _ in 0..10 {
        if dec.needs_block() {
            last = dec.next(None);
            break;
        }
        last = dec.next(None);
    }
    assert_eq!(last.unwrap_err(), FitsFormatError::Truncated);
}

#[test]
fn decoder_unsupported_bitpix() {
    let b = block(&["SIMPLE  =                    T", "BITPIX  =                   12"]);
    let mut dec = FitsDecoder::new();
    assert!(dec.next(Some(&b)).unwrap().is_some());
    assert_eq!(dec.next(None).unwrap_err(), FitsFormatError::UnsupportedBitpix(12));
}

#[test]
fn parser_finds_primary_hdu() {
    let blocks = simple_file();
    let size = (blocks.len() * BLOCK_LEN) as u64;
    let (mut p, mut action) = FitsParser::start(size).unwrap();
    let mut pos = 0u64;
    while !p.is_done() {
        match action {
            ParserAction::ReadBlock => {}
            ParserAction::SeekAndReadBlock(ofs) => pos = ofs,
            ParserAction::Done => break,
        }
        let b = &blocks[(pos / BLOCK_LEN as u64) as usize];
        pos += BLOCK_LEN as u64;
        action = p.feed(b).unwrap();
    }
    let hdus = p.hdus();
    assert_eq!(hdus.len(), 1);
    assert_eq!(hdus[0].kind(), HduKind::PrimaryArray);
    assert_eq!(hdus[0].bitpix(), Bitpix::I16);
    let (_gcount, _pcount, axes) = hdus[0].shape();
    assert_eq!(axes, &[40, 50]);
}

#[test]
fn parser_rejects_partial_block_files() {
    assert_eq!(FitsParser::start(100).err(), Some(FitsFormatError::NotMultipleOfBlock(100)));
}

fn kw(k: &str, v: &str) -> String {
    format!("{:<8}= {:>20}", k, v)
}

fn parse_file(bytes: &[u8]) -> Result<FitsParser, FitsFormatError> {
    let (mut p, mut action) = FitsParser::start(bytes.len() as u64)?;
    let mut pos = 0usize;
    while !p.is_done() {
        match action {
            ParserAction::ReadBlock => {}
            ParserAction::SeekAndReadBlock(ofs) => pos = ofs as usize,
            ParserAction::Done => break,
        }
        action = p.feed(&bytes[pos..pos + BLOCK_LEN])?;
        pos += BLOCK_LEN;
    }
    Ok(p)
}

#[test]
fn parser_lists_each_hdu_once() {
    let mut b = block(&[
        &kw("SIMPLE", "T"),
        &kw("BITPIX", "8"),
        &kw("NAXIS", "1"),
        &kw("NAXIS1", "10"),
        "END",
    ]);
    b.extend_from_slice(&[0u8; BLOCK_LEN]);
    b.extend_from_slice(&block(&[
        "XTENSION= 'IMAGE'",
        &kw("BITPIX", "8"),
        &kw("NAXIS", "1"),
        &kw("NAXIS1", "0"),
        &kw("PCOUNT", "0"),
        &kw("GCOUNT", "1"),
        "EXTNAME = 'SCI'",
        "END",
    ]));
    let p = parse_file(&b).unwrap();
    let hdus = p.hdus();
    assert_eq!(hdus.len(), 2);
    assert_eq!(hdus[0].kind(), HduKind::PrimaryArray);
    assert_eq!(hdus[0].shape(), (1, 0, &[10usize][..]));
    assert_eq!(hdus[1].kind(), HduKind::ImageExtension);
    assert_eq!(hdus[1].extname(), "SCI");
    assert_eq!(hdus[1].shape(), (1, 0, &[0usize][..]));
}

#[test]
fn parser_skips_data_of_every_hdu() {
    let mut b = block(&[&kw("SIMPLE", "T"), &kw("BITPIX", "8"), &kw("NAXIS", "0"), "END"]);
    b.extend_from_slice(&block(&[
        "XTENSION= 'BINTABLE'",
        &kw("BITPIX", "8"),
        &kw("NAXIS", "2"),
        &kw("NAXIS1", "100"),
        &kw("NAXIS2", "30"),
        &kw("PCOUNT", "0"),
        &kw("GCOUNT", "1"),
        "EXTNAME = 'ONE'",
        "END",
    ]));
    b.extend_from_slice(&[0u8; 2 * BLOCK_LEN]);
    b.extend_from_slice(&block(&[
        "XTENSION= 'TABLE'",
        &kw("BITPIX", "8"),
        &kw("NAXIS", "0"),
        &kw("PCOUNT", "0"),
        &kw("GCOUNT", "1"),
        "EXTNAME = 'TWO'",
        "END",
    ]));
    let p = parse_file(&b).unwrap();
    let hdus = p.hdus();
    assert_eq!(hdus.len(), 3);
    assert_eq!(hdus[0].kind(), HduKind::PrimaryNoData);
    assert_eq!(hdus[1].kind(), HduKind::BinaryTableExtension);
    assert_eq!(hdus[1].extname(), "ONE");
    assert_eq!(hdus[2].kind(), HduKind::AsciiTableExtension);
    assert_eq!(hdus[2].extname(), "TWO");
}

#[test]
fn parser_primary_without_axes_has_no_data() {
    let b = block(&[&kw("SIMPLE", "T"), &kw("BITPIX", "8"), &kw("NAXIS", "0"), "END"]);
    let p = parse_file(&b).unwrap();
    let hdus = p.hdus();
    assert_eq!(hdus.len(), 1);
    assert_eq!(hdus[0].kind(), HduKind::PrimaryNoData);
    assert_eq!(hdus[0].extname(), "");
    assert!(hdus[0].shape().2.is_empty());
}

#[test]
fn decoder_primary_without_axes_has_no_data() {
    let b = block(&[&kw("SIMPLE", "T"), &kw("BITPIX", "8"), &kw("NAXIS", "0"), "END"]);
    let mut dec = FitsDecoder::new();
    let mut headers = 0;
    let mut announced = None;
    let mut fed = false;
    loop {
        let item = if dec.needs_block() && !fed {
            fed = true;
            dec.next(Some(&b))
        } else {
            dec.next(None)
        };
        match item.unwrap() {
            None => break,
            Some(LowLevelFitsItem::Header(_)) => headers += 1,
            Some(LowLevelFitsItem::EndOfHeaders(n)) => announced = Some(n),
            Some(_) => panic!("no data here"),
        }
    }
    assert_eq!(headers, 3);
    assert_eq!(announced, Some(0));
}

fn two_hdu_file() -> Vec<u8> {
    let mut b = block(&[
        &kw("SIMPLE", "T"),
        &kw("BITPIX", "8"),
        &kw("NAXIS", "1"),
        &kw("NAXIS1", "10"),
        "END",
    ]);
    b.extend_from_slice(&[0u8; BLOCK_LEN]);
    b.extend_from_slice(&block(&[
        "XTENSION= 'IMAGE'",
        &kw("BITPIX", "8"),
        &kw("NAXIS", "1"),
        &kw("NAXIS1", "0"),
        &kw("PCOUNT", "0"),
        &kw("GCOUNT", "1"),
        "EXTNAME = 'SCI'",
        "END",
    ]));
    b
}

#[test]
fn parse_bytes_whole_file() {
    let p = FitsParser::parse_bytes(&two_hdu_file()).unwrap();
    assert!(p.is_done());
    let hdus = p.hdus();
    assert_eq!(hdus.len(), 2);
    assert_eq!(hdus[0].kind(), HduKind::PrimaryArray);
    assert_eq!(hdus[0].extname(), "");
    assert_eq!(hdus[0].shape(), (1, 0, &[10usize][..]));
    assert_eq!(hdus[1].kind(), HduKind::ImageExtension);
    assert_eq!(hdus[1].extname(), "SCI");
    assert_eq!(hdus[1].shape(), (1, 0, &[0usize][..]));
}

#[test]
fn parse_bytes_primary_without_axes() {
    let b = block(&[&kw("SIMPLE", "T"), &kw("BITPIX", "8"), &kw("NAXIS", "0"), "END"]);
    let p = FitsParser::parse_bytes(&b).unwrap();
    assert_eq!(p.hdus().len(), 1);
    assert_eq!(p.hdus()[0].kind(), HduKind::PrimaryNoData);
}

#[test]
fn parse_bytes_errors() {
    let b = two_hdu_file();
    assert_eq!(
        FitsParser::parse_bytes(&b[..100]).err(),
        Some(FitsFormatError::NotMultipleOfBlock(100))
    );
    assert_eq!(FitsParser::parse_bytes(&b[..BLOCK_LEN]).err(), Some(FitsFormatError::Truncated));
    let mut nx = b.clone();
    nx[2 * BLOCK_LEN] = b'Y';
    let p = FitsParser::parse_bytes(&nx).unwrap();
    assert_eq!(p.hdus().len(), 1);
}
