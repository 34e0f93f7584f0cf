use vstd::prelude::*;

use crate::fingerprint::{Fingerprint, FingerprintData};
use crate::matcher::{
    accepted_list, full_scoring, is_top_of, rank_matches, scored_entry_ok, song_ids, sorted_desc,
};

verus! {

/// What the store knows of a song.
#[derive(Debug)]
pub struct SongData {
    pub title: String,
}

/// One entry of a search's ranking: a song and its relevance score.
#[derive(Debug)]
pub struct RankingData {
    pub data: SongData,
    pub score: i32,
}

/// Why a search or an indexing step failed.
#[derive(Debug, Clone, Copy, PartialEq, Eq, Structural)]
pub enum StoreError {
    /// The query carried no fingerprints.
    EmptyQuery,
    /// The storage collaborator failed; such a failure may be retried.
    Storage,
}

#[verifier::external_type_specification]
#[verifier::external_body]
pub struct ExConnection(rusqlite::Connection);

#[verifier::external_type_specification]
#[verifier::external_body]
pub struct ExRusqliteError(rusqlite::Error);

/// The uniqueness key under which a fingerprint record is stored.
pub open spec fn rec_key(d: FingerprintData) -> (u32, u32, u32, i32) {
    (d.fingerprint.address, d.fingerprint.anchor_address, d.fingerprint.anchor_time, d.song_id)
}

/// The uniqueness keys of a whole batch of records.
pub open spec fn record_keys(recs: Seq<FingerprintData>) -> Set<(u32, u32, u32, i32)> {
    Set::new(
        |k: (u32, u32, u32, i32)|
            exists|i: int| 0 <= i < recs.len() && rec_key(#[trigger] recs[i]) == k,
    )
}

/// The `?,?,...,?` parameter list of an n-key lookup.
pub open spec fn placeholders_spec(n: int) -> Seq<char>
    decreases n,
{
    if n <= 0 {
        Seq::empty()
    } else if n == 1 {
        seq!['?']
    } else {
        placeholders_spec(n - 1) + seq![',', '?']
    }
}

/// Relies on String::push: appends one character to the string.
pub assume_specification[ String::push ](s: &mut String, c: char)
    ensures
        final(s)@ == old(s)@.push(c),
;

fn build_placeholders(n: usize) -> (s: String)
    ensures
        s@ == placeholders_spec(n as int),
{
    let mut s = String::new();
    let mut i: usize = 0;
    while i < n
        invariant
            i <= n,
            s@ == placeholders_spec(i as int),
        decreases n - i,
    {
        if i > 0 {
            s.push(',');
        }
        s.push('?');
        i += 1;
        assert(s@ =~= placeholders_spec(i as int));
    }
    s
}

/// The rows a lookup by the query's addresses must return: every row is a
/// stored record whose address occurs among the query fingerprints, every
/// such stored record appears exactly once, and nothing else comes back.
/// The rows' order is the store's own and is not promised.
pub open spec fn conformant_rows(
    stored: Set<(u32, u32, u32, i32)>,
    q: Seq<Fingerprint>,
    rows: Seq<FingerprintData>,
) -> bool {
    &&& forall|k: int| 0 <= k < rows.len() ==> stored.contains(rec_key(#[trigger] rows[k]))
    &&& forall|k: int|
        0 <= k < rows.len() ==> exists|t: int|
            0 <= t < q.len() && (#[trigger] q[t]).address == (#[trigger] rows[k]).fingerprint.address
    &&& forall|key: (u32, u32, u32, i32)|
        #[trigger] stored.contains(key) && (exists|t: int|
            0 <= t < q.len() && (#[trigger] q[t]).address == key.0) ==> exists|k: int|
            0 <= k < rows.len() && rec_key(#[trigger] rows[k]) == key
    &&& forall|k1: int, k2: int|
        0 <= k1 < k2 < rows.len() ==> rec_key(rows[k1]) != rec_key(rows[k2])
}

/// The time span the query clip covers: from its first anchor to its
/// last.
pub open spec fn query_span(q: Seq<Fingerprint>) -> u32 {
    (q.last().anchor_time - q.first().anchor_time) as u32
}

/// One ranking entry is resolved: its title is the stored title of some
/// song that survived the neighborhood filter over the retrieved rows,
/// and its score is a legitimate alignment score for that song.
pub open spec fn resolved_entry(
    songs: Map<i64, Seq<char>>,
    q: Seq<Fingerprint>,
    rows: Seq<FingerprintData>,
    e: RankingData,
) -> bool {
    exists|sid: i32|
        #[trigger] song_ids(accepted_list(rows)).contains(sid) && songs.contains_key(sid as i64)
            && e.data.title@ == songs[sid as i64] && e.score >= 0 && scored_entry_ok(
            q,
            rows,
            query_span(q),
            (sid, e.score),
        )
}

/// `list` resolves, in order, a subsequence of the ranked entries `top`:
/// each surviving entry keeps its entry's score and carries its song's
/// stored title, and the missing entries are only those dropped on the
/// way (a failed title lookup).
pub open spec fn resolves_subsequence_of(
    list: Seq<RankingData>,
    top: Seq<(i32, i32)>,
    songs: Map<i64, Seq<char>>,
) -> bool {
    exists|idx: Seq<int>|
        {
            &&& (#[trigger] idx.len()) == list.len()
            &&& forall|k: int| 0 <= k < idx.len() ==> 0 <= #[trigger] idx[k] < top.len()
            &&& forall|k: int| 0 < k < idx.len() ==> idx[k - 1] < #[trigger] idx[k]
            &&& forall|k: int|
                0 <= k < idx.len() ==> (#[trigger] list[k]).score == top[idx[k]].1
                    && songs.contains_key(top[idx[k]].0 as i64) && list[k].data.title@
                    == songs[top[idx[k]].0 as i64]
        }
}

/// Relies on rusqlite's Connection::open and execute: opens or creates
/// the database at `path` and creates the songs and fingerprints tables
/// when they are absent. A store that cannot be opened or prepared comes
/// back as the error.
#[verifier::external_body]
fn open_connection(path: &str) -> Result<rusqlite::Connection, rusqlite::Error> {
    let conn = rusqlite::Connection::open(path)?;
    conn.execute(
        "CREATE TABLE IF NOT EXISTS songs (id INTEGER PRIMARY KEY AUTOINCREMENT, title TEXT NOT NULL)",
        (),
    )?;
    conn.execute(
        "CREATE TABLE IF NOT EXISTS fingerprints (address INTEGER NOT NULL, anchorAddress INTEGER NOT NULL, anchorTime INTEGER NOT NULL, songID INTEGER NOT NULL, PRIMARY KEY (address, anchorAddress, anchorTime, songID))",
        (),
    )?;
    Ok(conn)
}

/// A handle on the SQLite store, with a model of what the store holds:
/// the songs (id to title) and the set of fingerprint record keys. Each
/// storage operation's contract states its effect on that model.
pub struct DbClient {
    conn: rusqlite::Connection,
    songs: Ghost<Map<i64, Seq<char>>>,
    fps: Ghost<Set<(u32, u32, u32, i32)>>,
}

impl DbClient {
    /// The songs the store holds: id to title.
    pub closed spec fn songs(&self) -> Map<i64, Seq<char>> {
        self.songs@
    }

    /// The fingerprint records the store holds, by uniqueness key.
    pub closed spec fn records(&self) -> Set<(u32, u32, u32, i32)> {
        self.fps@
    }

    /// Opens the store at `path`, creating its tables when absent; a
    /// store that cannot be opened or prepared is reported, not fatal.
    /// Nothing is claimed of what an existing database already holds: the
    /// model starts at unknown contents, and only the operations below
    /// relate it to what later comes back.
    pub fn new(path: &str) -> (r: Result<DbClient, StoreError>)
        ensures
            r matches Err(e) ==> e == StoreError::Storage,
    {
        match open_connection(path) {
            Ok(conn) => Ok(DbClient { conn, songs: Ghost(arbitrary()), fps: Ghost(arbitrary()) }),
            Err(_) => Err(StoreError::Storage),
        }
    }

    /// Relies on rusqlite's prepare_cached and execute over INSERT INTO
    /// songs, and last_insert_rowid: returns how many rows the insert
    /// affected, and the id SQLite assigned last. When a row was
    /// inserted, the stored songs gain exactly that id with this title,
    /// and AUTOINCREMENT never hands out an id the table holds, so the id
    /// was no key before. The fingerprint records are untouched; an
    /// insert that affected no row, or failed, changes nothing.
    #[verifier::external_body]
    fn register_song_raw(&mut self, song_data: &SongData) -> (r: Result<
        (usize, i64),
        rusqlite::Error,
    >)
        ensures
            match r {
                Ok(p) => (p.0 > 0 ==> final(self).songs() == old(self).songs().insert(
                    p.1,
                    song_data.title@,
                ) && !old(self).songs().contains_key(p.1) && final(self).records()
                    == old(self).records()) && (p.0 == 0 ==> final(self).songs()
                    == old(self).songs() && final(self).records() == old(self).records()),
                Err(_) => final(self).songs() == old(self).songs() && final(self).records()
                    == old(self).records(),
            },
    {
        let changed = {
            let mut stmt = self.conn.prepare_cached("INSERT INTO songs (title) VALUES (?)")?;
            stmt.execute((song_data.title.as_str(),))?
        };
        Ok((changed, self.conn.last_insert_rowid()))
    }

    /// Registers a song and returns its newly assigned id, an id the
    /// store did not hold before. An insert that affects no row is a
    /// storage failure.
    pub fn register_song(&mut self, song_data: &SongData) -> (r: Result<i64, StoreError>)
        ensures
            match r {
                Ok(id) => final(self).songs() == old(self).songs().insert(id, song_data.title@)
                    && !old(self).songs().contains_key(id) && final(self).records() == old(
                    self,
                ).records(),
                Err(e) => final(self).songs() == old(self).songs() && final(self).records()
                    == old(self).records() && e == StoreError::Storage,
            },
    {
        match self.register_song_raw(song_data) {
            Ok((changed, id)) => {
                if changed == 0 {
                    Err(StoreError::Storage)
                } else {
                    Ok(id)
                }
            },
            Err(_) => Err(StoreError::Storage),
        }
    }

    /// Relies on rusqlite's prepare_cached and execute over INSERT OR
    /// IGNORE INTO fingerprints, whose primary key is the record's whole
    /// uniqueness key: on success the stored records gain that key, and a
    /// key the store already holds leaves it unchanged, which the set
    /// model carries. The songs are untouched; a failed statement changes
    /// nothing.
    #[verifier::external_body]
    fn register_fingerprint_raw(&mut self, fingerprint_data: &FingerprintData) -> (r: Result<
        (),
        rusqlite::Error,
    >)
        ensures
            match r {
                Ok(_) => final(self).records() == old(self).records().insert(
                    rec_key(*fingerprint_data),
                ) && final(self).songs() == old(self).songs(),
                Err(_) => final(self).songs() == old(self).songs() && final(self).records()
                    == old(self).records(),
            },
    {
        let mut stmt = self.conn.prepare_cached(
            "INSERT OR IGNORE INTO fingerprints (address, anchorAddress, anchorTime, songID) VALUES (?, ?, ?, ?)",
        )?;
        stmt.execute((
            fingerprint_data.fingerprint.address,
            fingerprint_data.fingerprint.anchor_address,
            fingerprint_data.fingerprint.anchor_time,
            fingerprint_data.song_id,
        ))?;
        Ok(())
    }

    /// Registers one fingerprint record; re-registering a record the
    /// store already holds is a no-op.
    pub fn register_fingerprint(&mut self, fingerprint_data: &FingerprintData) -> (r: Result<
        (),
        StoreError,
    >)
        ensures
            match r {
                Ok(_) => final(self).records() == old(self).records().insert(
                    rec_key(*fingerprint_data),
                ) && final(self).songs() == old(self).songs(),
                Err(e) => final(self).songs() == old(self).songs() && final(self).records()
                    == old(self).records() && e == StoreError::Storage,
            },
    {
        match self.register_fingerprint_raw(fingerprint_data) {
            Ok(_) => Ok(()),
            Err(_) => Err(StoreError::Storage),
        }
    }

    /// Relies on rusqlite's transaction, prepare_cached and execute:
    /// writes the whole batch with one INSERT OR IGNORE per record,
    /// bracketed in a single transaction. On success every key of the
    /// batch is stored; on any failure the transaction is rolled back
    /// when dropped, so the store is unchanged and no partial batch
    /// remains. The songs are untouched.
    #[verifier::external_body]
    fn register_fingerprints_raw(&mut self, records: &Vec<FingerprintData>) -> (r: Result<
        (),
        rusqlite::Error,
    >)
        ensures
            match r {
                Ok(_) => final(self).records() == old(self).records().union(record_keys(records@))
                    && final(self).songs() == old(self).songs(),
                Err(_) => final(self).songs() == old(self).songs() && final(self).records()
                    == old(self).records(),
            },
    {
        let tx = self.conn.transaction()?;
        {
            let mut stmt = tx.prepare_cached(
                "INSERT OR IGNORE INTO fingerprints (address, anchorAddress, anchorTime, songID) VALUES (?, ?, ?, ?)",
            )?;
            for d in records {
                stmt.execute((d.fingerprint.address, d.fingerprint.anchor_address, d.fingerprint.anchor_time, d.song_id))?;
            }
        }
        tx.commit()?;
        Ok(())
    }

    /// Registers a whole batch of fingerprint records as one
    /// transaction: either all of them are stored, or a failure leaves
    /// the store as it was.
    pub fn register_fingerprints(&mut self, records: &Vec<FingerprintData>) -> (r: Result<
        (),
        StoreError,
    >)
        ensures
            match r {
                Ok(_) => final(self).records() == old(self).records().union(record_keys(records@))
                    && final(self).songs() == old(self).songs(),
                Err(e) => final(self).songs() == old(self).songs() && final(self).records()
                    == old(self).records() && e == StoreError::Storage,
            },
    {
        match self.register_fingerprints_raw(records) {
            Ok(_) => Ok(()),
            Err(_) => Err(StoreError::Storage),
        }
    }

    /// Relies on rusqlite's query_row over SELECT title FROM songs: a row
    /// that comes back is the stored title of `song_id`. Success is not
    /// promised: a missing id or a storage fault surfaces as the error.
    #[verifier::external_body]
    fn get_song_data_raw(&self, song_id: i32) -> (r: Result<SongData, rusqlite::Error>)
        ensures
            r matches Ok(d) ==> self.songs().contains_key(song_id as i64) && d.title@
                == self.songs()[song_id as i64],
    {
        let mut stmt = self.conn.prepare_cached("SELECT title FROM songs WHERE id = ?")?;
        let row = stmt.query_row([song_id], |row| Ok(SongData { title: row.get(0)? }))?;
        Ok(row)
    }

    /// Looks a song's data up by its id.
    pub fn get_song_data(&self, song_id: i32) -> (r: Result<SongData, StoreError>)
        ensures
            r matches Ok(d) ==> self.songs().contains_key(song_id as i64) && d.title@
                == self.songs()[song_id as i64],
            r matches Err(e) ==> e == StoreError::Storage,
    {
        match self.get_song_data_raw(song_id) {
            Ok(d) => Ok(d),
            Err(_) => Err(StoreError::Storage),
        }
    }

    /// Relies on rusqlite's prepare and query_map over one batched SELECT
    /// ... WHERE address IN (...), with one parameter per query
    /// fingerprint: SQL returns exactly the stored rows whose address
    /// equals one of the bound addresses, each once, in an order of the
    /// store's choosing.
    #[verifier::external_body]
    fn get_fingerprint_from_database_raw(
        &self,
        fingerprints: &Vec<Fingerprint>,
        placeholders: &String,
    ) -> (r: Result<Vec<FingerprintData>, rusqlite::Error>)
        requires
            placeholders@ == placeholders_spec(fingerprints@.len() as int),
        ensures
            r matches Ok(rows) ==> conformant_rows(self.records(), fingerprints@, rows@),
    {
        let sql = format!(
            "SELECT address, anchorAddress, anchorTime, songID FROM fingerprints WHERE address IN ({})",
            placeholders,
        );
        let mut stmt = self.conn.prepare(&sql)?;
        let params: Vec<&dyn rusqlite::types::ToSql> =
            fingerprints.iter().map(|f| &f.address as &dyn rusqlite::types::ToSql).collect();
        let rows = stmt.query_map(params.as_slice(), |row| {
            let f = Fingerprint { address: row.get(0)?, anchor_address: row.get(1)?, anchor_time: row.get(2)? };
            Ok(FingerprintData { fingerprint: f, song_id: row.get(3)? })
        })?.collect::<Result<Vec<_>, _>>()?;
        Ok(rows)
    }

    /// One batched lookup: every stored record whose address occurs among
    /// the query fingerprints.
    pub fn get_fingerprint_from_database(&self, fingerprints: &Vec<Fingerprint>) -> (r: Result<
        Vec<FingerprintData>,
        StoreError,
    >)
        ensures
            r matches Ok(rows) ==> conformant_rows(self.records(), fingerprints@, rows@),
            r matches Err(e) ==> e == StoreError::Storage,
    {
        let ph = build_placeholders(fingerprints.len());
        match self.get_fingerprint_from_database_raw(fingerprints, &ph) {
            Ok(rows) => Ok(rows),
            Err(_) => Err(StoreError::Storage),
        }
    }

    /// Searches the store for the songs the query clip most plausibly
    /// came from. The stored records colliding with the query's addresses
    /// are retrieved in one batch, filtered for neighborhood
    /// completeness, aligned in time and scored per song; the best `rank`
    /// songs come back best first, each resolved to its stored title. A
    /// song whose title lookup fails is dropped rather than failing the
    /// search; an empty query or a failed lookup is reported.
    pub fn search(&self, fingerprints: Vec<Fingerprint>, rank: usize) -> (r: Result<
        Vec<RankingData>,
        StoreError,
    >)
        requires
            fingerprints@.len() > 0 ==> fingerprints@.first().anchor_time
                <= fingerprints@.last().anchor_time,
        ensures
            fingerprints@.len() == 0 <==> r == Err::<Vec<RankingData>, StoreError>(
                StoreError::EmptyQuery,
            ),
            r matches Err(e) ==> e == StoreError::EmptyQuery || e == StoreError::Storage,
            r matches Ok(list) ==> list@.len() <= rank && (forall|i: int, j: int|
                0 <= i < j < list@.len() ==> (#[trigger] list@[i]).score
                    >= (#[trigger] list@[j]).score) && exists|
                rows: Seq<FingerprintData>,
                all: Seq<(i32, i32)>,
                top: Seq<(i32, i32)>,
            |
                {
                    &&& #[trigger] conformant_rows(self.records(), fingerprints@, rows)
                    &&& forall|k: int|
                        0 <= k < list@.len() ==> resolved_entry(
                            self.songs(),
                            fingerprints@,
                            rows,
                            #[trigger] list@[k],
                        )
                    &&& full_scoring(fingerprints@, rows, query_span(fingerprints@), all)
                    &&& #[trigger] is_top_of(top, all)
                    &&& top.len() == (if rank as int <= all.len() {
                        rank as int
                    } else {
                        all.len() as int
                    })
                    &&& resolves_subsequence_of(list@, top, self.songs())
                },
    {
        if fingerprints.len() == 0 {
            return Err(StoreError::EmptyQuery);
        }
        let sample_duration = fingerprints[fingerprints.len() - 1].anchor_time
            - fingerprints[0].anchor_time;
        let rows = match self.get_fingerprint_from_database(&fingerprints) {
            Ok(v) => v,
            Err(_) => {
                return Err(StoreError::Storage);
            },
        };
        let ghost grows = rows@;
        let ranked = rank_matches(&fingerprints, &rows, sample_duration, rank);
        let ghost all_scores = choose|all: Seq<(i32, i32)>|
            #[trigger] full_scoring(fingerprints@, grows, sample_duration, all) && is_top_of(
                ranked@,
                all,
            );
        let ghost mut gidx: Seq<int> = Seq::empty();
        let mut result: Vec<RankingData> = Vec::new();
        let mut i: usize = 0;
        while i < ranked.len()
            invariant
                i <= ranked@.len(),
                ranked@.len() <= rank,
                fingerprints@.len() > 0,
                sample_duration == query_span(fingerprints@),
                forall|t: int|
                    0 <= t < ranked@.len() ==> scored_entry_ok(
                        fingerprints@,
                        grows,
                        sample_duration,
                        #[trigger] ranked@[t],
                    ),
                sorted_desc(ranked@),
                forall|t: int|
                    0 <= t < ranked@.len() ==> song_ids(accepted_list(grows)).contains(
                        (#[trigger] ranked@[t]).0,
                    ) && ranked@[t].1 >= 0,
                result@.len() <= i,
                forall|k: int|
                    0 <= k < result@.len() ==> resolved_entry(
                        self.songs(),
                        fingerprints@,
                        grows,
                        #[trigger] result@[k],
                    ),
                forall|k: int, t: int|
                    0 <= k < result@.len() && i <= t < ranked@.len() ==> (#[trigger] result@[k]).score
                        >= (#[trigger] ranked@[t]).1,
                forall|i2: int, j2: int|
                    0 <= i2 < j2 < result@.len() ==> result@[i2].score >= result@[j2].score,
                gidx.len() == result@.len(),
                forall|k: int| 0 <= k < gidx.len() ==> 0 <= #[trigger] gidx[k] < i,
                forall|k: int| 0 < k < gidx.len() ==> gidx[k - 1] < #[trigger] gidx[k],
                forall|k: int|
                    0 <= k < gidx.len() ==> (#[trigger] result@[k]).score == ranked@[gidx[k]].1
                        && self.songs().contains_key(ranked@[gidx[k]].0 as i64)
                        && result@[k].data.title@ == self.songs()[ranked@[gidx[k]].0 as i64],
            decreases ranked@.len() - i,
        {
            let e = ranked[i];
            match self.get_song_data(e.0) {
                Ok(data) => {
                    result.push(RankingData { data, score: e.1 });
                    proof {
                        assert(sample_duration == query_span(fingerprints@));
                        assert((e.0, e.1) == ranked@[i as int]);
                        assert(scored_entry_ok(
                            fingerprints@,
                            grows,
                            query_span(fingerprints@),
                            (e.0, result@.last().score),
                        ));
                        assert(resolved_entry(
                            self.songs(),
                            fingerprints@,
                            grows,
                            result@.last(),
                        ));
                        gidx = gidx.push(i as int);
                    }
                },
                Err(_) => {},
            }
            i += 1;
        }
        proof {
            assert((gidx.len()) == result@.len());
            assert(resolves_subsequence_of(result@, ranked@, self.songs()));
            assert(conformant_rows(self.records(), fingerprints@, grows));
            assert(full_scoring(fingerprints@, grows, sample_duration, all_scores));
            assert(is_top_of(ranked@, all_scores));
            assert(ranked@.len() == (if rank as int <= all_scores.len() {
                rank as int
            } else {
                all_scores.len() as int
            }));
        }
        Ok(result)
    }
}

/// Registering a fingerprint record the store already holds leaves the
/// store exactly as it was: indexing is idempotent, so a clip may be
/// re-indexed or an insert retried without creating duplicates.
pub proof fn lemma_register_fingerprint_idempotent(
    stored: Set<(u32, u32, u32, i32)>,
    key: (u32, u32, u32, i32),
)
    ensures
        stored.insert(key).insert(key) == stored.insert(key),
{
    assert(stored.insert(key).insert(key) =~= stored.insert(key));
}

} // verus!
