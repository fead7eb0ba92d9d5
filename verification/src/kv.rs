//! Key/value store logic for the datagram database.
//!
//! A datagram holding '=' is an insert: everything before the first '='
//! is the key, everything after it the value. Any other datagram is a
//! retrieval and is answered with `key=value` when the key is present.
//! The key "version" is reserved: inserts to it are ignored and
//! retrievals answer a fixed banner. Oversized datagrams are dropped.

use vstd::prelude::*;

use crate::db::bytes_eq;

verus! {

/// The reserved key, the bytes of "version".
pub open spec fn version_key() -> Seq<u8> {
    seq![118u8, 101u8, 114u8, 115u8, 105u8, 111u8, 110u8]
}

fn version_key_vec() -> (r: Vec<u8>)
    ensures
        r@ == version_key(),
{
    let mut r: Vec<u8> = Vec::new();
    r.push(118);
    r.push(101);
    r.push(114);
    r.push(115);
    r.push(105);
    r.push(111);
    r.push(110);
    assert(r@ =~= version_key());
    r
}

/// The fixed value reported for the reserved key, the bytes of
/// "Unusual Database Program".
pub open spec fn version_banner() -> Seq<u8> {
    seq![
        85u8, 110u8, 117u8, 115u8, 117u8, 97u8, 108u8, 32u8, 68u8, 97u8, 116u8, 97u8, 98u8,
        97u8, 115u8, 101u8, 32u8, 80u8, 114u8, 111u8, 103u8, 114u8, 97u8, 109u8,
    ]
}

fn version_banner_vec() -> (r: Vec<u8>)
    ensures
        r@ == version_banner(),
{
    let mut r: Vec<u8> = Vec::new();
    r.push(85);
    r.push(110);
    r.push(117);
    r.push(115);
    r.push(117);
    r.push(97);
    r.push(108);
    r.push(32);
    r.push(68);
    r.push(97);
    r.push(116);
    r.push(97);
    r.push(98);
    r.push(97);
    r.push(115);
    r.push(101);
    r.push(32);
    r.push(80);
    r.push(114);
    r.push(111);
    r.push(103);
    r.push(114);
    r.push(97);
    r.push(109);
    assert(r@ =~= version_banner());
    r
}

/// First index of a key in the store, or -1.
pub open spec fn kv_index(s: Seq<(Vec<u8>, Vec<u8>)>, key: Seq<u8>) -> int
    decreases s.len(),
{
    if s.len() == 0 {
        -1
    } else if s[0].0@ == key {
        0
    } else {
        let r = kv_index(s.drop_first(), key);
        if r < 0 {
            -1
        } else {
            r + 1
        }
    }
}

/// `kv_index` finds the first matching entry, if any.
pub proof fn lemma_kv_index_char(s: Seq<(Vec<u8>, Vec<u8>)>, key: Seq<u8>)
    ensures
        kv_index(s, key) == -1 ==> forall|j: int| 0 <= j < s.len() ==> s[j].0@ != key,
        kv_index(s, key) != -1 ==> {
            let i = kv_index(s, key);
            &&& 0 <= i < s.len()
            &&& s[i].0@ == key
            &&& forall|j: int| 0 <= j < i ==> s[j].0@ != key
        },
    decreases s.len(),
{
    if s.len() > 0 && s[0].0@ != key {
        let d = s.drop_first();
        lemma_kv_index_char(d, key);
        assert(forall|j: int| 0 < j < s.len() ==> s[j] == d[j - 1]);
        if kv_index(d, key) == -1 {
            assert forall|j: int| 0 <= j < s.len() implies s[j].0@ != key by {
                if j > 0 {
                    assert(s[j] == d[j - 1]);
                }
            }
        } else {
            let r = kv_index(d, key);
            assert(s[r + 1] == d[r]);
            assert forall|j: int| 0 <= j < r + 1 implies s[j].0@ != key by {
                if j > 0 {
                    assert(s[j] == d[j - 1]);
                }
            }
        }
    }
}

/// Indices are unchanged when two stores agree on their keys.
pub proof fn lemma_kv_index_same_keys(
    s1: Seq<(Vec<u8>, Vec<u8>)>,
    s2: Seq<(Vec<u8>, Vec<u8>)>,
    key: Seq<u8>,
)
    requires
        s1.len() == s2.len(),
        forall|j: int| 0 <= j < s1.len() ==> s1[j].0@ == s2[j].0@,
    ensures
        kv_index(s1, key) == kv_index(s2, key),
    decreases s1.len(),
{
    if s1.len() > 0 {
        assert(s1[0].0@ == s2[0].0@);
        lemma_kv_index_same_keys(s1.drop_first(), s2.drop_first(), key);
    }
}

/// The datagram store.
pub struct Database {
    pub data: Vec<(Vec<u8>, Vec<u8>)>,
}

impl Database {
    /// Keys are unique.
    pub open spec fn wf(self) -> bool {
        forall|i: int, j: int| 0 <= i < j < self.data@.len() ==> self.data@[i].0@ != self.data@[j].0@
    }

    /// What a key is mapped to in storage; the reserved key is never
    /// stored.
    pub open spec fn spec_stored(self, key: Seq<u8>) -> Option<Seq<u8>> {
        let i = kv_index(self.data@, key);
        if i < 0 {
            None
        } else {
            Some(self.data@[i].1@)
        }
    }

    /// What a retrieval answers: the fixed banner for the reserved key,
    /// else the stored value.
    pub open spec fn spec_get(self, key: Seq<u8>) -> Option<Seq<u8>> {
        if key == version_key() {
            Some(version_banner())
        } else {
            self.spec_stored(key)
        }
    }

    /// An empty store.
    pub fn new() -> (r: Database)
        ensures
            r.wf(),
            r.data@.len() == 0,
            forall|k: Seq<u8>| r.spec_stored(k) is None,
    {
        Database { data: Vec::new() }
    }

    /// First index of the key, if present.
    fn find_key(&self, key: &[u8]) -> (r: Option<usize>)
        ensures
            match r {
                Some(i) => kv_index(self.data@, key@) == i,
                None => kv_index(self.data@, key@) == -1,
            },
    {
        let mut i: usize = 0;
        while i < self.data.len()
            invariant
                i <= self.data@.len(),
                forall|j: int| 0 <= j < i ==> self.data@[j].0@ != key@,
            decreases self.data@.len() - i,
        {
            if bytes_eq(self.data[i].0.as_slice(), key) {
                proof {
                    lemma_kv_index_char(self.data@, key@);
                    let k = kv_index(self.data@, key@);
                    if k == -1 {
                        assert(self.data@[i as int].0@ == key@);
                    }
                }
                return Some(i);
            }
            i += 1;
        }
        proof {
            lemma_kv_index_char(self.data@, key@);
            let k = kv_index(self.data@, key@);
            if k != -1 {
                assert(self.data@[k].0@ == key@);
            }
        }
        None
    }

    /// Inserts or overwrites a key; writes to the reserved key are
    /// ignored.
    pub fn set(&mut self, key: Vec<u8>, value: Vec<u8>)
        requires
            old(self).wf(),
        ensures
            final(self).wf(),
            key@ == version_key() ==> final(self).data@ == old(self).data@,
            key@ != version_key() ==> final(self).spec_stored(key@) == Some(value@),
            forall|k: Seq<u8>|
                k != key@ ==> final(self).spec_stored(k) == old(self).spec_stored(k),
    {
        let vk = version_key_vec();
        if bytes_eq(key.as_slice(), vk.as_slice()) {
            return ;
        }
        let ghost pre = self.data@;
        match self.find_key(key.as_slice()) {
            Some(i) => {
                proof {
                    lemma_kv_index_char(pre, key@);
                }
                self.data.remove(i);
                self.data.insert(i, (key, value));
                proof {
                    let cur = self.data@;
                    assert(cur =~= pre.update(i as int, (key, value)));
                    assert(forall|j: int| 0 <= j < cur.len() ==> cur[j].0@ == pre[j].0@);
                    lemma_kv_index_char(cur, key@);
                    assert(cur[i as int].0@ == key@);
                    assert(kv_index(cur, key@) == i) by {
                        let k = kv_index(cur, key@);
                        if k == -1 {
                        } else if k < i {
                            assert(pre[k].0@ != key@);
                        } else if k > i {
                        }
                    }
                    assert forall|k: Seq<u8>| k != key@ implies self.spec_stored(k) == old(
                        self,
                    ).spec_stored(k) by {
                        lemma_kv_index_same_keys(pre, cur, k);
                        lemma_kv_index_char(cur, k);
                        let k2 = kv_index(cur, k);
                        if k2 >= 0 {
                            assert(cur[k2].0@ == k);
                            assert(k2 != i);
                            assert(cur[k2] == pre[k2]);
                        }
                    }
                }
            },
            None => {
                proof {
                    lemma_kv_index_char(pre, key@);
                }
                self.data.push((key, value));
                proof {
                    let cur = self.data@;
                    lemma_kv_index_char(cur, key@);
                    assert(cur[pre.len() as int].0@ == key@);
                    assert(kv_index(cur, key@) == pre.len()) by {
                        let k = kv_index(cur, key@);
                        if k == -1 {
                        } else if k < pre.len() {
                            assert(cur[k] == pre[k]);
                        }
                    }
                    assert forall|k: Seq<u8>| k != key@ implies self.spec_stored(k) == old(
                        self,
                    ).spec_stored(k) by {
                        lemma_kv_index_char(pre, k);
                        lemma_kv_index_char(cur, k);
                        if kv_index(pre, k) == -1 {
                            assert(kv_index(cur, k) == -1) by {
                                if kv_index(cur, k) != -1 {
                                    let j = kv_index(cur, k);
                                    assert(cur[j].0@ == k);
                                    assert(j < pre.len());
                                    assert(pre[j].0@ == k);
                                }
                            }
                        } else {
                            let j = kv_index(pre, k);
                            assert(cur[j].0@ == k);
                            assert(kv_index(cur, k) == j) by {
                                let j2 = kv_index(cur, k);
                                if j2 == -1 {
                                } else if j2 < j {
                                    assert(pre[j2].0@ == k);
                                } else if j2 > j {
                                }
                            }
                        }
                    }
                    assert(self.wf());
                }
            },
        }
    }

    /// Answers a retrieval with a copy of the stored value, or the
    /// fixed banner for the reserved key.
    pub fn get(&self, key: &[u8]) -> (r: Option<Vec<u8>>)
        ensures
            match r {
                Some(v) => self.spec_get(key@) == Some(v@),
                None => self.spec_get(key@) is None,
            },
    {
        let vk = version_key_vec();
        if bytes_eq(key, vk.as_slice()) {
            return Some(version_banner_vec());
        }
        match self.find_key(key) {
            Some(i) => {
                proof {
                    lemma_kv_index_char(self.data@, key@);
                }
                Some(vstd::slice::slice_to_vec(self.data[i].1.as_slice()))
            },
            None => {
                None
            },
        }
    }
}

/// First '=' in a datagram, or -1.
pub open spec fn eq_index(s: Seq<u8>) -> int
    decreases s.len(),
{
    if s.len() == 0 {
        -1
    } else if s[0] == 61 {
        0
    } else {
        let r = eq_index(s.drop_first());
        if r < 0 {
            -1
        } else {
            r + 1
        }
    }
}

/// `eq_index` finds the first '=', if any.
pub proof fn lemma_eq_index_char(s: Seq<u8>)
    ensures
        eq_index(s) == -1 ==> forall|j: int| 0 <= j < s.len() ==> s[j] != 61,
        eq_index(s) != -1 ==> {
            let i = eq_index(s);
            &&& 0 <= i < s.len()
            &&& s[i] == 61
            &&& forall|j: int| 0 <= j < i ==> s[j] != 61
        },
    decreases s.len(),
{
    if s.len() > 0 && s[0] != 61 {
        let d = s.drop_first();
        lemma_eq_index_char(d);
        assert(forall|j: int| 0 < j < s.len() ==> s[j] == d[j - 1]);
        if eq_index(d) == -1 {
            assert forall|j: int| 0 <= j < s.len() implies s[j] != 61 by {
                if j > 0 {
                    assert(s[j] == d[j - 1]);
                }
            }
        } else {
            let r = eq_index(d);
            assert(s[r + 1] == d[r]);
            assert forall|j: int| 0 <= j < r + 1 implies s[j] != 61 by {
                if j > 0 {
                    assert(s[j] == d[j - 1]);
                }
            }
        }
    }
}

/// First '=' in a datagram, if any.
fn find_eq(b: &[u8]) -> (r: Option<usize>)
    ensures
        match r {
            Some(i) => eq_index(b@) == i,
            None => eq_index(b@) == -1,
        },
{
    let mut i: usize = 0;
    while i < b.len()
        invariant
            i <= b@.len(),
            forall|j: int| 0 <= j < i ==> b@[j] != 61,
        decreases b@.len() - i,
    {
        if b[i] == 61 {
            proof {
                lemma_eq_index_char(b@);
                let k = eq_index(b@);
                if k == -1 {
                    assert(b@[i as int] == 61);
                }
            }
            return Some(i);
        }
        i += 1;
    }
    proof {
        lemma_eq_index_char(b@);
        let k = eq_index(b@);
        if k != -1 {
            assert(b@[k] == 61);
        }
    }
    None
}

/// Handles one datagram: an oversized one is dropped, one holding '='
/// is an insert and gets no reply, any other is a retrieval answered
/// with `key=value` when the key resolves.
pub fn apply_datagram(db: &mut Database, msg: &[u8]) -> (r: Option<Vec<u8>>)
    requires
        old(db).wf(),
    ensures
        final(db).wf(),
        msg@.len() > 1000 ==> final(db).data@ == old(db).data@ && r is None,
        msg@.len() <= 1000 && eq_index(msg@) >= 0 ==> {
            let i = eq_index(msg@);
            let key = msg@.subrange(0, i);
            let value = msg@.subrange(i + 1, msg@.len() as int);
            &&& r is None
            &&& (key == version_key() ==> final(db).data@ == old(db).data@)
            &&& (key != version_key() ==> final(db).spec_stored(key) == Some(value))
            &&& forall|k: Seq<u8>| k != key ==> final(db).spec_stored(k) == old(db).spec_stored(k)
        },
        msg@.len() <= 1000 && eq_index(msg@) == -1 ==> {
            &&& final(db).data@ == old(db).data@
            &&& match r {
                Some(resp) => old(db).spec_get(msg@) matches Some(v) && resp@ == msg@ + seq![61u8]
                    + v,
                None => old(db).spec_get(msg@) is None,
            }
        },
{
    if msg.len() > 1000 {
        return None;
    }
    match find_eq(msg) {
        Some(i) => {
            proof {
                lemma_eq_index_char(msg@);
            }
            let key = vstd::slice::slice_to_vec(&msg[0..i]);
            let value = vstd::slice::slice_to_vec(&msg[i + 1..msg.len()]);
            db.set(key, value);
            None
        },
        None => {
            match db.get(msg) {
                Some(v) => {
                    let mut resp = vstd::slice::slice_to_vec(msg);
                    resp.push(61);
                    let ghost mid = resp@;
                    let mut i: usize = 0;
                    while i < v.len()
                        invariant
                            i <= v@.len(),
                            resp@ == mid + v@.subrange(0, i as int),
                        decreases v@.len() - i,
                    {
                        resp.push(v[i]);
                        i += 1;
                        assert(resp@ =~= mid + v@.subrange(0, i as int));
                    }
                    proof {
                        assert(v@.subrange(0, v@.len() as int) =~= v@);
                        assert(resp@ =~= msg@ + seq![61u8] + v@);
                    }
                    Some(resp)
                },
                None => {
                    None
                },
            }
        },
    }
}

} // verus!
