//! The metainfo model: a typed view over a decoded bencode document, and
//! the canonical bencode form of the `info` substructure, whose hash
//! identifies the torrent.

use vstd::prelude::*;

use crate::ascii_bytes;
use crate::bencode::{
    canon, copy_bytes, decode, encode, encoded, entries_view, items_view, lemma_deep_representable,
    lemma_entries_view, lemma_items_view, lookup, dict_get, representable, ParseError, SpecValue,
    Value,
};
use crate::str_bytes;

verus! {

broadcast use {vstd::std_specs::vec::group_vec_axioms, vstd::seq::group_seq_axioms};

/// One record of a multi-file torrent.
#[derive(Debug, Clone, PartialEq, Eq)]
pub struct File {
    pub length: u32,
    pub md5sum: Option<Vec<u8>>,
    pub path: Vec<u8>,
}

/// The content description of a torrent. Immutable once parsed; its
/// canonical bencode form is what the info hash is computed over.
#[derive(Debug, Clone, PartialEq, Eq)]
pub struct Info {
    pub name: Vec<u8>,
    pub pieces: Vec<u8>,
    pub piece_length: u32,
    pub length: Option<u32>,
    pub md5sum: Option<Vec<u8>>,
    pub files: Option<Vec<File>>,
}

/// A parsed metainfo document.
#[derive(Debug, Clone, PartialEq, Eq)]
pub struct Torrent {
    pub announce: Vec<u8>,
    pub announce_list: Option<Vec<Vec<Vec<u8>>>>,
    pub creation_date: i64,
    pub info: Info,
}

/// A metainfo document that cannot be parsed.
#[derive(Debug, Clone, Copy, PartialEq, Eq)]
pub enum MetainfoError {
    /// The bytes are not a well-formed bencode document.
    Syntax(ParseError),
    /// The document is bencode, but not a valid torrent: a required field
    /// is missing or ill-typed, or the piece hashes are misaligned.
    Invalid,
}

/// The bencode form of one file record, keys in canonical order.
pub open spec fn file_value(f: File) -> SpecValue {
    SpecValue::Dict(
        seq![(ascii_bytes("length"@), SpecValue::Int(f.length as int))] + (match f.md5sum {
            Some(m) => seq![(ascii_bytes("md5sum"@), SpecValue::Bytes(m@))],
            None => Seq::empty(),
        }) + seq![(ascii_bytes("path"@), SpecValue::Bytes(f.path@))],
    )
}

/// The bencode forms of a run of file records.
pub open spec fn files_values(fs: Seq<File>) -> Seq<SpecValue>
    decreases fs,
{
    if fs.len() == 0 {
        Seq::empty()
    } else {
        seq![file_value(fs.first())] + files_values(fs.drop_first())
    }
}

/// The bencode form of the `info` substructure, keys in canonical order:
/// absent optional fields are left out, never defaulted.
pub open spec fn info_value(i: Info) -> SpecValue {
    SpecValue::Dict(
        (match i.files {
            Some(fs) => seq![(ascii_bytes("files"@), SpecValue::List(files_values(fs@)))],
            None => Seq::empty(),
        }) + (match i.length {
            Some(l) => seq![(ascii_bytes("length"@), SpecValue::Int(l as int))],
            None => Seq::empty(),
        }) + (match i.md5sum {
            Some(m) => seq![(ascii_bytes("md5sum"@), SpecValue::Bytes(m@))],
            None => Seq::empty(),
        }) + seq![
            (ascii_bytes("name"@), SpecValue::Bytes(i.name@)),
            (ascii_bytes("piece length"@), SpecValue::Int(i.piece_length as int)),
            (ascii_bytes("pieces"@), SpecValue::Bytes(i.pieces@)),
        ],
    )
}

/// Whether a decoded value is a valid file record.
pub open spec fn file_valid(v: SpecValue) -> bool {
    &&& v is Dict
    &&& (match lookup(v->Dict_0, ascii_bytes("length"@)) {
        Some(SpecValue::Int(n)) => 0 <= n <= u32::MAX,
        _ => false,
    })
    &&& (match lookup(v->Dict_0, ascii_bytes("path"@)) {
        Some(SpecValue::Bytes(_)) => true,
        _ => false,
    })
    &&& (match lookup(v->Dict_0, ascii_bytes("md5sum"@)) {
        None => true,
        Some(SpecValue::Bytes(_)) => true,
        _ => false,
    })
}

/// Whether the file record `f` reads exactly the fields of `v`.
pub open spec fn file_matches(v: SpecValue, f: File) -> bool {
    &&& f.length as int == lookup(v->Dict_0, ascii_bytes("length"@))->Some_0->Int_0
    &&& f.path@ == lookup(v->Dict_0, ascii_bytes("path"@))->Some_0->Bytes_0
    &&& (match lookup(v->Dict_0, ascii_bytes("md5sum"@)) {
        None => f.md5sum is None,
        Some(m) => f.md5sum matches Some(b) && b@ == m->Bytes_0,
    })
}

/// Whether a decoded value is a valid `info` dictionary.
pub open spec fn info_valid(v: SpecValue) -> bool {
    &&& v is Dict
    &&& (match lookup(v->Dict_0, ascii_bytes("name"@)) {
        Some(SpecValue::Bytes(_)) => true,
        _ => false,
    })
    &&& (match lookup(v->Dict_0, ascii_bytes("pieces"@)) {
        Some(SpecValue::Bytes(b)) => b.len() % 20 == 0,
        _ => false,
    })
    &&& (match lookup(v->Dict_0, ascii_bytes("piece length"@)) {
        Some(SpecValue::Int(n)) => 1 <= n <= u32::MAX,
        _ => false,
    })
    &&& (match lookup(v->Dict_0, ascii_bytes("length"@)) {
        None => true,
        Some(SpecValue::Int(n)) => 0 <= n <= u32::MAX,
        _ => false,
    })
    &&& (match lookup(v->Dict_0, ascii_bytes("md5sum"@)) {
        None => true,
        Some(SpecValue::Bytes(_)) => true,
        _ => false,
    })
    &&& (match lookup(v->Dict_0, ascii_bytes("files"@)) {
        None => true,
        Some(SpecValue::List(xs)) => forall|i: int| 0 <= i < xs.len() ==> file_valid(#[trigger] xs[i]),
        _ => false,
    })
}

/// Whether `i` reads exactly the fields of the `info` dictionary `v`.
pub open spec fn info_matches(v: SpecValue, i: Info) -> bool {
    &&& i.name@ == lookup(v->Dict_0, ascii_bytes("name"@))->Some_0->Bytes_0
    &&& i.pieces@ == lookup(v->Dict_0, ascii_bytes("pieces"@))->Some_0->Bytes_0
    &&& i.piece_length as int == lookup(v->Dict_0, ascii_bytes("piece length"@))->Some_0->Int_0
    &&& (match lookup(v->Dict_0, ascii_bytes("length"@)) {
        None => i.length is None,
        Some(n) => i.length matches Some(l) && l as int == n->Int_0,
    })
    &&& (match lookup(v->Dict_0, ascii_bytes("md5sum"@)) {
        None => i.md5sum is None,
        Some(m) => i.md5sum matches Some(b) && b@ == m->Bytes_0,
    })
    &&& (match lookup(v->Dict_0, ascii_bytes("files"@)) {
        None => i.files is None,
        Some(xs) => i.files matches Some(fs) && fs@.len() == xs->List_0.len() && forall|j: int|
            0 <= j < fs@.len() ==> file_matches(xs->List_0[j], #[trigger] fs@[j]),
    })
}

/// Whether a decoded value is a valid torrent document.
pub open spec fn torrent_valid(v: SpecValue) -> bool {
    &&& v is Dict
    &&& (match lookup(v->Dict_0, ascii_bytes("announce"@)) {
        Some(SpecValue::Bytes(_)) => true,
        _ => false,
    })
    &&& (match lookup(v->Dict_0, ascii_bytes("creation date"@)) {
        Some(SpecValue::Int(n)) => i64::MIN <= n <= i64::MAX,
        _ => false,
    })
    &&& (match lookup(v->Dict_0, ascii_bytes("announce-list"@)) {
        None => true,
        Some(SpecValue::List(gs)) => forall|i: int|
            0 <= i < gs.len() ==> (#[trigger] gs[i]) is List && forall|j: int|
                0 <= j < gs[i]->List_0.len() ==> (#[trigger] gs[i]->List_0[j]) is Bytes,
        _ => false,
    })
    &&& (match lookup(v->Dict_0, ascii_bytes("info"@)) {
        Some(iv) => info_valid(iv),
        None => false,
    })
}

/// Whether `t` reads exactly the fields of the torrent document `v`.
pub open spec fn torrent_matches(v: SpecValue, t: Torrent) -> bool {
    &&& t.announce@ == lookup(v->Dict_0, ascii_bytes("announce"@))->Some_0->Bytes_0
    &&& t.creation_date as int == lookup(v->Dict_0, ascii_bytes("creation date"@))->Some_0->Int_0
    &&& (match lookup(v->Dict_0, ascii_bytes("announce-list"@)) {
        None => t.announce_list is None,
        Some(lv) => t.announce_list matches Some(gs) && gs@.len() == lv->List_0.len()
            && forall|i: int|
            0 <= i < gs@.len() ==> (#[trigger] gs@[i])@.len() == lv->List_0[i]->List_0.len()
                && forall|j: int|
                0 <= j < gs@[i]@.len() ==> (#[trigger] gs@[i]@[j])@ == lv->List_0[i]->List_0[j]->Bytes_0,
    })
    &&& info_matches(lookup(v->Dict_0, ascii_bytes("info"@))->Some_0, t.info)
}


/// Pointwise reading of `files_values`.
pub proof fn lemma_files_values(fs: Seq<File>)
    ensures
        files_values(fs).len() == fs.len(),
        forall|i: int| 0 <= i < fs.len() ==> files_values(fs)[i] == file_value(#[trigger] fs[i]),
    decreases fs.len(),
{
    if fs.len() > 0 {
        lemma_files_values(fs.drop_first());
        assert forall|i: int| 0 <= i < fs.len() implies files_values(fs)[i] == file_value(
            #[trigger] fs[i],
        ) by {
            if i > 0 {
                assert(fs.drop_first()[i - 1] == fs[i]);
                assert(files_values(fs)[i] == files_values(fs.drop_first())[i - 1]);
            }
        }
    }
}

/// Reads one file record out of a decoded value.
fn file_from_value(v: &Value) -> (r: Result<File, MetainfoError>)
    ensures
        match r {
            Ok(f) => file_valid(v@) && file_matches(v@, f),
            Err(e) => e == MetainfoError::Invalid && !file_valid(v@),
        },
{
    proof {
        reveal_strlit("length");
        reveal_strlit("path");
        reveal_strlit("md5sum");
    }
    let es = match v {
        Value::Dict(es) => es,
        _ => {
            return Err(MetainfoError::Invalid);
        },
    };
    let length: u32 = match dict_get(es, &str_bytes("length")) {
        Some(Value::Int(n)) => {
            if *n < 0 || *n > 4294967295i64 {
                return Err(MetainfoError::Invalid);
            }
            *n as u32
        },
        _ => {
            return Err(MetainfoError::Invalid);
        },
    };
    let path: Vec<u8> = match dict_get(es, &str_bytes("path")) {
        Some(Value::Bytes(b)) => copy_bytes(b),
        _ => {
            return Err(MetainfoError::Invalid);
        },
    };
    let md5sum: Option<Vec<u8>> = match dict_get(es, &str_bytes("md5sum")) {
        None => None,
        Some(Value::Bytes(b)) => Some(copy_bytes(b)),
        Some(_) => {
            return Err(MetainfoError::Invalid);
        },
    };
    Ok(File { length, md5sum, path })
}

/// Reads the `info` substructure out of a decoded value.
#[verifier::loop_isolation(false)]
fn info_from_value(v: &Value) -> (r: Result<Info, MetainfoError>)
    ensures
        match r {
            Ok(i) => info_valid(v@) && info_matches(v@, i),
            Err(e) => e == MetainfoError::Invalid && !info_valid(v@),
        },
{
    proof {
        reveal_strlit("name");
        reveal_strlit("pieces");
        reveal_strlit("piece length");
        reveal_strlit("length");
        reveal_strlit("md5sum");
        reveal_strlit("files");
    }
    let es = match v {
        Value::Dict(es) => es,
        _ => {
            return Err(MetainfoError::Invalid);
        },
    };
    let name: Vec<u8> = match dict_get(es, &str_bytes("name")) {
        Some(Value::Bytes(b)) => copy_bytes(b),
        _ => {
            return Err(MetainfoError::Invalid);
        },
    };
    let pieces: Vec<u8> = match dict_get(es, &str_bytes("pieces")) {
        Some(Value::Bytes(b)) => {
            if b.len() % 20 != 0 {
                return Err(MetainfoError::Invalid);
            }
            copy_bytes(b)
        },
        _ => {
            return Err(MetainfoError::Invalid);
        },
    };
    let piece_length: u32 = match dict_get(es, &str_bytes("piece length")) {
        Some(Value::Int(n)) => {
            if *n < 1 || *n > 4294967295i64 {
                return Err(MetainfoError::Invalid);
            }
            *n as u32
        },
        _ => {
            return Err(MetainfoError::Invalid);
        },
    };
    let length: Option<u32> = match dict_get(es, &str_bytes("length")) {
        None => None,
        Some(Value::Int(n)) => {
            if *n < 0 || *n > 4294967295i64 {
                return Err(MetainfoError::Invalid);
            }
            Some(*n as u32)
        },
        Some(_) => {
            return Err(MetainfoError::Invalid);
        },
    };
    let md5sum: Option<Vec<u8>> = match dict_get(es, &str_bytes("md5sum")) {
        None => None,
        Some(Value::Bytes(b)) => Some(copy_bytes(b)),
        Some(_) => {
            return Err(MetainfoError::Invalid);
        },
    };
    let files: Option<Vec<File>> = match dict_get(es, &str_bytes("files")) {
        None => None,
        Some(fv) => {
            let xs = match fv {
                Value::List(xs) => xs,
                _ => {
                    return Err(MetainfoError::Invalid);
                },
            };
            let ghost m = items_view(xs@);
            proof {
                lemma_items_view(xs@);
            }
            let mut fs: Vec<File> = Vec::new();
            let mut i: usize = 0;
            while i < xs.len()
                invariant
                    i <= xs@.len(),
                    fs@.len() == i,
                    m == items_view(xs@),
                    m.len() == xs@.len(),
                    forall|j: int| 0 <= j < xs@.len() ==> m[j] == xs@[j].deep(),
                    forall|j: int|
                        0 <= j < i ==> file_valid(#[trigger] m[j]) && file_matches(m[j], fs@[j]),
                decreases xs@.len() - i,
            {
                match file_from_value(&xs[i]) {
                    Ok(f) => {
                        fs.push(f);
                    },
                    Err(e) => {
                        proof {
                            assert(m[i as int] == xs@[i as int].deep());
                            assert(!file_valid(m[i as int]));
                            assert(fv@ == SpecValue::List(m));
                            assert(lookup(entries_view(es@), ascii_bytes("files"@))
                                == Some(SpecValue::List(m)));
                            assert(v@ == SpecValue::Dict(entries_view(es@)));
                            assert(0 <= i < m.len());
                            assert(!file_valid(
                                lookup(v@->Dict_0, ascii_bytes("files"@))->Some_0->List_0[i as int],
                            ));
                            assert(!info_valid(v@));
                        }
                        return Err(e);
                    },
                }
                i = i + 1;
            }
            Some(fs)
        },
    };
    Ok(Info { name, pieces, piece_length, length, md5sum, files })
}

/// Reads one announce-list group: a list of tracker URL byte strings.
pub open spec fn group_valid(v: SpecValue) -> bool {
    v is List && forall|j: int| 0 <= j < v->List_0.len() ==> (#[trigger] v->List_0[j]) is Bytes
}

/// Whether the group `g` reads exactly the byte strings of `v`.
pub open spec fn group_matches(v: SpecValue, g: Vec<Vec<u8>>) -> bool {
    g@.len() == v->List_0.len() && forall|j: int|
        0 <= j < g@.len() ==> (#[trigger] g@[j])@ == v->List_0[j]->Bytes_0
}

#[verifier::loop_isolation(false)]
fn group_from_value(v: &Value) -> (r: Result<Vec<Vec<u8>>, MetainfoError>)
    ensures
        match r {
            Ok(g) => group_valid(v@) && group_matches(v@, g),
            Err(e) => e == MetainfoError::Invalid && !group_valid(v@),
        },
{
    let xs = match v {
        Value::List(xs) => xs,
        _ => {
            return Err(MetainfoError::Invalid);
        },
    };
    let ghost m = items_view(xs@);
    proof {
        lemma_items_view(xs@);
    }
    let mut g: Vec<Vec<u8>> = Vec::new();
    let mut i: usize = 0;
    while i < xs.len()
        invariant
            i <= xs@.len(),
            g@.len() == i,
            m == items_view(xs@),
            m.len() == xs@.len(),
            forall|j: int| 0 <= j < xs@.len() ==> m[j] == xs@[j].deep(),
            forall|j: int|
                0 <= j < i ==> (#[trigger] m[j]) is Bytes && g@[j]@ == m[j]->Bytes_0,
        decreases xs@.len() - i,
    {
        match &xs[i] {
            Value::Bytes(b) => {
                g.push(copy_bytes(b));
            },
            _ => {
                proof {
                    assert(m[i as int] == xs@[i as int].deep());
                    assert(!(m[i as int] is Bytes));
                    assert(!group_valid(v@));
                }
                return Err(MetainfoError::Invalid);
            },
        }
        i = i + 1;
    }
    Ok(g)
}

/// Reads a whole torrent out of a decoded value. Succeeds exactly on
/// valid torrent documents; a missing or ill-typed required field is an
/// error, never a default.
#[verifier::loop_isolation(false)]
pub fn torrent_from_value(v: &Value) -> (r: Result<Torrent, MetainfoError>)
    ensures
        match r {
            Ok(t) => torrent_valid(v@) && torrent_matches(v@, t),
            Err(e) => e == MetainfoError::Invalid && !torrent_valid(v@),
        },
{
    proof {
        reveal_strlit("announce");
        reveal_strlit("creation date");
        reveal_strlit("announce-list");
        reveal_strlit("info");
    }
    let es = match v {
        Value::Dict(es) => es,
        _ => {
            return Err(MetainfoError::Invalid);
        },
    };
    let announce: Vec<u8> = match dict_get(es, &str_bytes("announce")) {
        Some(Value::Bytes(b)) => copy_bytes(b),
        _ => {
            return Err(MetainfoError::Invalid);
        },
    };
    let creation_date: i64 = match dict_get(es, &str_bytes("creation date")) {
        Some(Value::Int(n)) => *n,
        _ => {
            return Err(MetainfoError::Invalid);
        },
    };
    let announce_list: Option<Vec<Vec<Vec<u8>>>> = match dict_get(es, &str_bytes("announce-list")) {
        None => None,
        Some(lv) => {
            let gs = match lv {
                Value::List(gs) => gs,
                _ => {
                    return Err(MetainfoError::Invalid);
                },
            };
            let ghost m = items_view(gs@);
            proof {
                lemma_items_view(gs@);
            }
            let mut groups: Vec<Vec<Vec<u8>>> = Vec::new();
            let mut i: usize = 0;
            while i < gs.len()
                invariant
                    i <= gs@.len(),
                    groups@.len() == i,
                    m == items_view(gs@),
                    m.len() == gs@.len(),
                    forall|j: int| 0 <= j < gs@.len() ==> m[j] == gs@[j].deep(),
                    forall|j: int|
                        0 <= j < i ==> group_valid(#[trigger] m[j]) && group_matches(
                            m[j],
                            groups@[j],
                        ),
                decreases gs@.len() - i,
            {
                match group_from_value(&gs[i]) {
                    Ok(g) => {
                        groups.push(g);
                    },
                    Err(e) => {
                        proof {
                            assert(m[i as int] == gs@[i as int].deep());
                            assert(!group_valid(m[i as int]));
                            assert(!torrent_valid(v@));
                        }
                        return Err(e);
                    },
                }
                i = i + 1;
            }
            Some(groups)
        },
    };
    let info: Info = match dict_get(es, &str_bytes("info")) {
        Some(iv) => {
            match info_from_value(iv) {
                Ok(i) => i,
                Err(e) => {
                    return Err(e);
                },
            }
        },
        None => {
            return Err(MetainfoError::Invalid);
        },
    };
    Ok(Torrent { announce, announce_list, creation_date, info })
}

/// Parses the raw bytes of a metainfo file. On success the result reads
/// exactly the fields of a bencode document that re-encodes, order kept,
/// to the input bytes. A syntax error comes exactly when the bytes are no
/// representable document's wire form; an invalid-torrent error exactly
/// when they are one, but not a valid torrent's.
pub fn parse(bytes: &[u8]) -> (r: Result<Torrent, MetainfoError>)
    ensures
        match r {
            Ok(t) => exists|sv: SpecValue|
                encoded(sv) == bytes@ && #[trigger] torrent_valid(sv) && torrent_matches(sv, t),
            Err(MetainfoError::Syntax(_)) => forall|sv: SpecValue|
                representable(sv) ==> #[trigger] encoded(sv) != bytes@,
            Err(MetainfoError::Invalid) => exists|sv: SpecValue|
                representable(sv) && #[trigger] encoded(sv) == bytes@ && !torrent_valid(sv),
        },
{
    let v = match decode(bytes) {
        Ok(v) => v,
        Err(e) => {
            return Err(MetainfoError::Syntax(e));
        },
    };
    match torrent_from_value(&v) {
        Ok(t) => {
            proof {
                assert(encoded(v@) == bytes@ && torrent_valid(v@) && torrent_matches(v@, t));
            }
            Ok(t)
        },
        Err(e) => {
            proof {
                lemma_deep_representable(v);
                assert(representable(v@) && encoded(v@) == bytes@ && !torrent_valid(v@));
            }
            Err(e)
        },
    }
}

/// The bencode form of one file record, as a decoded value.
fn build_file_value(f: &File) -> (v: Value)
    ensures
        v@ == file_value(*f),
{
    proof {
        reveal_strlit("length");
        reveal_strlit("path");
        reveal_strlit("md5sum");
    }
    let mut es: Vec<(Vec<u8>, Value)> = Vec::new();
    es.push((str_bytes("length"), Value::Int(f.length as i64)));
    match &f.md5sum {
        Some(m) => {
            es.push((str_bytes("md5sum"), Value::Bytes(copy_bytes(m))));
        },
        None => {},
    }
    es.push((str_bytes("path"), Value::Bytes(copy_bytes(&f.path))));
    let v = Value::Dict(es);
    proof {
        lemma_entries_view(es@);
        assert(entries_view(es@) =~= file_value(*f)->Dict_0);
        assert(v@ =~= file_value(*f));
    }
    v
}

/// The bencode form of the `info` substructure, as a decoded value with
/// its keys already in canonical order.
#[verifier::loop_isolation(false)]
pub fn build_info_value(info: &Info) -> (v: Value)
    ensures
        v@ == info_value(*info),
{
    proof {
        reveal_strlit("files");
        reveal_strlit("length");
        reveal_strlit("md5sum");
        reveal_strlit("name");
        reveal_strlit("piece length");
        reveal_strlit("pieces");
    }
    let mut es: Vec<(Vec<u8>, Value)> = Vec::new();
    match &info.files {
        Some(fs) => {
            let mut xs: Vec<Value> = Vec::new();
            let mut i: usize = 0;
            while i < fs.len()
                invariant
                    i <= fs@.len(),
                    xs@.len() == i,
                    forall|j: int| 0 <= j < i ==> xs@[j].deep() == file_value(#[trigger] fs@[j]),
                decreases fs@.len() - i,
            {
                let fv = build_file_value(&fs[i]);
                xs.push(fv);
                i = i + 1;
            }
            proof {
                lemma_items_view(xs@);
                lemma_files_values(fs@);
                assert forall|j: int| 0 <= j < fs@.len() implies items_view(xs@)[j]
                    == files_values(fs@)[j] by {
                    assert(items_view(xs@)[j] == xs@[j].deep());
                    assert(files_values(fs@)[j] == file_value(fs@[j]));
                }
                assert(items_view(xs@) =~= files_values(fs@));
            }
            es.push((str_bytes("files"), Value::List(xs)));
        },
        None => {},
    }
    match info.length {
        Some(l) => {
            es.push((str_bytes("length"), Value::Int(l as i64)));
        },
        None => {},
    }
    match &info.md5sum {
        Some(m) => {
            es.push((str_bytes("md5sum"), Value::Bytes(copy_bytes(m))));
        },
        None => {},
    }
    es.push((str_bytes("name"), Value::Bytes(copy_bytes(&info.name))));
    es.push((str_bytes("piece length"), Value::Int(info.piece_length as i64)));
    es.push((str_bytes("pieces"), Value::Bytes(copy_bytes(&info.pieces))));
    let v = Value::Dict(es);
    proof {
        lemma_entries_view(es@);
        assert(entries_view(es@) =~= info_value(*info)->Dict_0);
        assert(v@ =~= info_value(*info));
    }
    v
}

/// The canonical bencode bytes of the `info` substructure: the exact
/// bytes the info hash is computed over.
pub fn encode_info(info: &Info) -> (r: Vec<u8>)
    ensures
        r@ == encoded(canon(info_value(*info))),
{
    let v = build_info_value(info);
    encode(&v)
}

} // verus!
