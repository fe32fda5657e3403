//! The template rendering engine: configurable tag delimiters, string
//! rendering through the substitution scanner, and page rendering memoized
//! in an expiring cache keyed by the layout name and the context hash.
//!
//! Reading a layout file is input/output and lives with the caller; the
//! caller asks `cached_page` for a memoized page first and, on a miss, hands
//! the file's contents to `finish_page`, which renders and caches them.

use vstd::prelude::*;

verus! {

use vstd::string::StringExecFns;

use crate::cache::{Cache, insert_entry, spec_expiry, spec_lookup};
use crate::chars::{chars_to_string, dec_chars, push_dec, push_str_chars, to_chars};
use crate::context::{Context, hash_of_views, view_pairs};
use crate::scan::{match_at, render_spec, scan_chars, ScanError, ScanOutcome};

#[verifier::external_type_specification]
#[verifier::external_body]
pub struct ExIoError(std::io::Error);

#[verifier::external_type_specification]
#[verifier::external_body]
pub struct ExReqwestError(reqwest::Error);

/// The ways an engine operation can fail.
#[derive(Debug)]
pub enum EngineError {
    /// Reading a template file failed; carries the error unchanged.
    Io(std::io::Error),
    /// A network request for remote templates failed; carries the error
    /// unchanged.
    Reqwest(reqwest::Error),
    /// A tag key was not found in the context.
    Render(String),
    /// The template itself is malformed: empty, a lone delimiter character,
    /// overlapping tags, or an unclosed tag.
    InvalidTemplate(String),
}

/// The message for a blank template.
pub open spec fn empty_template_message() -> Seq<char> {
    "Template is empty"@
}

/// The message for a template holding the open delimiter's first character
/// but never the full open delimiter.
pub open spec fn lone_delimiter_message(c: char) -> Seq<char> {
    "Invalid template syntax: single '"@ + seq![c] + "' are not allowed"@
}

/// The message for overlapping tags.
pub open spec fn nested_message() -> Seq<char> {
    "Nested delimiters are not allowed"@
}

/// The message for a tag with no close delimiter.
pub open spec fn unclosed_message() -> Seq<char> {
    "Unclosed template tag"@
}

/// The message for a key the context does not hold.
pub open spec fn unresolved_message(k: Seq<char>) -> Seq<char> {
    "Unresolved template tag: "@ + k
}

/// How a rendering result corresponds to the scanner's outcome: the rendered
/// text on success, and on failure the error variant and message that the
/// outcome calls for.
pub open spec fn render_result_matches(
    t: Seq<char>,
    ctx: Map<Seq<char>, Seq<char>>,
    od: Seq<char>,
    cd: Seq<char>,
    r: Result<String, EngineError>,
) -> bool {
    match render_spec(t, ctx, od, cd) {
        ScanOutcome::Rendered(s) => r matches Ok(out) && out@ == s,
        ScanOutcome::EmptyTemplate => r matches Err(EngineError::InvalidTemplate(m)) && m@
            == empty_template_message(),
        ScanOutcome::LoneDelimiter => r matches Err(EngineError::InvalidTemplate(m)) && m@
            == lone_delimiter_message(od[0]),
        ScanOutcome::Nested => r matches Err(EngineError::InvalidTemplate(m)) && m@
            == nested_message(),
        ScanOutcome::Unclosed => r matches Err(EngineError::InvalidTemplate(m)) && m@
            == unclosed_message(),
        ScanOutcome::Unresolved(k) => r matches Err(EngineError::Render(m)) && m@
            == unresolved_message(k),
    }
}

/// Options for rendering a page: a plain key-value collection from which a
/// rendering context is built.
#[derive(Debug, Clone, PartialEq, Eq)]
pub struct PageOptions {
    /// The collected options.
    pub elements: Context,
}

impl PageOptions {
    /// Well-formed: the underlying context is.
    pub open spec fn wf(self) -> bool {
        self.elements.wf()
    }

    /// Creates an empty set of options.
    pub fn new() -> (r: PageOptions)
        ensures
            r.wf(),
            r.elements@ == Map::<Seq<char>, Seq<char>>::empty(),
    {
        PageOptions { elements: Context::new() }
    }

    /// Sets one option, replacing any previous value for that key.
    pub fn set(&mut self, key: String, value: String)
        requires
            old(self).wf(),
        ensures
            final(self).wf(),
            final(self).elements@ == old(self).elements@.insert(key@, value@),
    {
        self.elements.set(key, value);
    }

    /// The value of one option, if it is set.
    pub fn get(&self, key: &str) -> (r: Option<&String>)
        requires
            self.wf(),
        ensures
            match r {
                Some(v) => self.elements@.contains_key(key@) && self.elements@[key@] == v@,
                None => !self.elements@.contains_key(key@),
            },
    {
        self.elements.get(key)
    }
}

impl Default for PageOptions {
    /// An empty set of options.
    fn default() -> (r: Self)
        ensures
            r.wf(),
            r.elements@ == Map::<Seq<char>, Seq<char>>::empty(),
    {
        PageOptions::new()
    }
}

/// The cache key of a page: the layout name, a colon, and the context hash
/// in decimal.
pub open spec fn page_key_chars(layout: Seq<char>, h: u64) -> Seq<char> {
    layout + seq![':'] + dec_chars(h as int)
}

/// The main template rendering engine.
#[derive(Debug)]
pub struct Engine {
    /// Path to the template directory.
    pub template_path: String,
    /// Cache of rendered pages.
    pub render_cache: Cache<String, String>,
    /// Opening delimiter of template tags.
    pub open_delim: String,
    /// Closing delimiter of template tags.
    pub close_delim: String,
}

impl Engine {
    /// Both delimiters are non-empty, which rendering requires.
    pub open spec fn delims_ok(self) -> bool {
        self.open_delim@.len() > 0 && self.close_delim@.len() > 0
    }

    /// Creates an engine rendering templates under `template_path`, caching
    /// pages for `cache_ttl` milliseconds, with the delimiters `{{` and
    /// `}}`.
    pub fn new(template_path: &str, cache_ttl: u64) -> (r: Self)
        requires
            cache_ttl > 0,
        ensures
            r.template_path@ == template_path@,
            r.render_cache.wf(),
            r.render_cache.entries() == Seq::<(String, String, u64)>::empty(),
            r.render_cache.spec_ttl() == cache_ttl,
            r.render_cache.spec_capacity() is None,
            r.open_delim@ == "{{"@,
            r.close_delim@ == "}}"@,
            r.delims_ok(),
    {
        proof {
            reveal_strlit("{{");
            reveal_strlit("}}");
        }
        Engine {
            template_path: String::from_str(template_path),
            render_cache: Cache::new(cache_ttl),
            open_delim: String::from_str("{{"),
            close_delim: String::from_str("}}"),
        }
    }

    /// Renders a template string against a context: each tag bounded by this
    /// engine's delimiters is replaced by the context value of the text
    /// between the delimiters, matched exactly. Returns the rendered string,
    /// or the error that the scanner's outcome calls for; nothing partial is
    /// ever returned.
    pub fn render_template(&self, template: &str, context: &Context) -> (r: Result<
        String,
        EngineError,
    >)
        requires
            self.delims_ok(),
            context.wf(),
        ensures
            render_result_matches(template@, context@, self.open_delim@, self.close_delim@, r),
    {
        let t = to_chars(template);
        let od = to_chars(self.open_delim.as_str());
        let cd = to_chars(self.close_delim.as_str());
        match scan_chars(&t, context, &od, &cd) {
            Ok(v) => Ok(chars_to_string(v)),
            Err(ScanError::EmptyTemplate) => Err(
                EngineError::InvalidTemplate(String::from_str("Template is empty")),
            ),
            Err(ScanError::LoneDelimiter(c)) => {
                let mut m = to_chars("Invalid template syntax: single '");
                m.push(c);
                push_str_chars(&mut m, "' are not allowed");
                proof {
                    assert(m@ =~= lone_delimiter_message(c));
                }
                Err(EngineError::InvalidTemplate(chars_to_string(m)))
            },
            Err(ScanError::Nested) => Err(
                EngineError::InvalidTemplate(
                    String::from_str("Nested delimiters are not allowed"),
                ),
            ),
            Err(ScanError::Unclosed) => Err(
                EngineError::InvalidTemplate(String::from_str("Unclosed template tag")),
            ),
            Err(ScanError::Unresolved(kv)) => {
                let ghost k = kv@;
                let mut m = to_chars("Unresolved template tag: ");
                let mut key = kv;
                m.append(&mut key);
                proof {
                    assert(m@ =~= unresolved_message(k));
                }
                Err(EngineError::Render(chars_to_string(m)))
            },
        }
    }

    /// Replaces both tag delimiters for all later render calls. Pages
    /// already cached are not affected.
    pub fn set_delimiters(&mut self, open: &str, close: &str)
        ensures
            final(self).open_delim@ == open@,
            final(self).close_delim@ == close@,
            final(self).template_path == old(self).template_path,
            final(self).render_cache == old(self).render_cache,
    {
        self.open_delim = String::from_str(open);
        self.close_delim = String::from_str(close);
    }

    /// The cache key of a page: the layout name, a colon, and the context
    /// hash in decimal.
    pub fn page_cache_key(context: &Context, layout: &str) -> (r: String)
        ensures
            r@ == page_key_chars(layout@, hash_of_views(view_pairs(context.pairs()))),
    {
        let h = context.hash();
        let mut v = to_chars(layout);
        v.push(':');
        push_dec(&mut v, h);
        proof {
            assert(v@ =~= page_key_chars(layout@, hash_of_views(view_pairs(context.pairs()))));
        }
        chars_to_string(v)
    }

    /// The cached rendering of `layout` under `context`, if one is live: the
    /// value stored under the page's cache key, returned unchanged.
    pub fn cached_page(&self, context: &Context, layout: &str) -> (r: Option<String>)
        requires
            self.render_cache.wf(),
        ensures
            exists|now: u64, k: String|
                #![trigger spec_lookup(self.render_cache.entries(), k, now)]
                {
                    &&& k@ == page_key_chars(layout@, hash_of_views(view_pairs(context.pairs())))
                    &&& match r {
                        Some(s) => spec_lookup(self.render_cache.entries(), k, now) == Some(s),
                        None => spec_lookup(self.render_cache.entries(), k, now) is None,
                    }
                },
    {
        let key = Self::page_cache_key(context, layout);
        let r = match self.render_cache.get(&key) {
            Some(v) => Some(v.clone()),
            None => None,
        };
        proof {
            let now = choose|now: u64|
                match r {
                    Some(s) => #[trigger] spec_lookup(self.render_cache.entries(), key, now)
                        == Some(s),
                    None => spec_lookup(self.render_cache.entries(), key, now) is None,
                };
            assert({
                &&& key@ == page_key_chars(layout@, hash_of_views(view_pairs(context.pairs())))
                &&& match r {
                    Some(s) => spec_lookup(self.render_cache.entries(), key, now) == Some(s),
                    None => spec_lookup(self.render_cache.entries(), key, now) is None,
                }
            });
        }
        r
    }

    /// Renders the contents of a layout file against a context and, on
    /// success, stores the result in the cache under the page's cache key.
    /// The rendered string is returned either way; on failure nothing is
    /// cached.
    pub fn finish_page(&mut self, context: &Context, layout: &str, template: &str) -> (r: Result<
        String,
        EngineError,
    >)
        requires
            old(self).delims_ok(),
            old(self).render_cache.wf(),
            context.wf(),
        ensures
            final(self).delims_ok(),
            final(self).render_cache.wf(),
            final(self).template_path == old(self).template_path,
            final(self).open_delim == old(self).open_delim,
            final(self).close_delim == old(self).close_delim,
            final(self).render_cache.spec_ttl() == old(self).render_cache.spec_ttl(),
            final(self).render_cache.spec_capacity() == old(self).render_cache.spec_capacity(),
            render_result_matches(
                template@,
                context@,
                old(self).open_delim@,
                old(self).close_delim@,
                r,
            ),
            r matches Err(_)
                ==> final(self).render_cache.entries() == old(self).render_cache.entries(),
            r matches Ok(out) ==> (exists|now: u64, k: String|
                #![trigger k@, spec_expiry(now, old(self).render_cache.spec_ttl())]
                {
                    &&& k@ == page_key_chars(layout@, hash_of_views(view_pairs(context.pairs())))
                    &&& final(self).render_cache.entries() == insert_entry(
                        old(self).render_cache.entries(),
                        (k, out),
                        spec_expiry(now, old(self).render_cache.spec_ttl()),
                        old(self).render_cache.spec_capacity(),
                    )
                }),
    {
        let key = Self::page_cache_key(context, layout);
        let ghost gkey = key;
        match self.render_template(template, context) {
            Ok(rendered) => {
                let out = rendered.clone();
                let ghost c0 = self.render_cache;
                let _ = self.render_cache.insert(key, rendered);
                proof {
                    if c0.blocks(gkey) {
                        assert(final(self).render_cache.entries() == insert_entry(
                            c0.entries(),
                            (gkey, out),
                            spec_expiry(0, c0.spec_ttl()),
                            c0.spec_capacity(),
                        ));
                    } else {
                        let now = choose|now: u64|
                            {
                                let exp = #[trigger] spec_expiry(now, c0.spec_ttl());
                                if crate::cache::has_key(c0.entries(), gkey) {
                                    let i = crate::cache::key_index(c0.entries(), gkey);
                                    final(self).render_cache.entries() == c0.entries().update(
                                        i,
                                        (gkey, out, exp),
                                    )
                                } else {
                                    final(self).render_cache.entries() == c0.entries().push(
                                        (gkey, out, exp),
                                    )
                                }
                            };
                        assert(final(self).render_cache.entries() == insert_entry(
                            c0.entries(),
                            (gkey, out),
                            spec_expiry(now, c0.spec_ttl()),
                            c0.spec_capacity(),
                        ));
                    }
                }
                Ok(out)
            },
            Err(e) => Err(e),
        }
    }

    /// Removes every cached page.
    pub fn clear_cache(&mut self)
        requires
            old(self).render_cache.wf(),
        ensures
            final(self).render_cache.wf(),
            final(self).render_cache.entries() == Seq::<(String, String, u64)>::empty(),
            final(self).render_cache.spec_ttl() == old(self).render_cache.spec_ttl(),
            final(self).render_cache.spec_capacity() == old(self).render_cache.spec_capacity(),
            final(self).template_path == old(self).template_path,
            final(self).open_delim == old(self).open_delim,
            final(self).close_delim == old(self).close_delim,
    {
        self.render_cache.clear();
    }

    /// Clears the whole cache if it currently stores more than `max_size`
    /// entries; otherwise changes nothing. A blunt reduction, not an
    /// eviction policy.
    pub fn set_max_cache_size(&mut self, max_size: usize)
        requires
            old(self).render_cache.wf(),
        ensures
            final(self).render_cache.wf(),
            old(self).render_cache.entries().len() > max_size
                ==> final(self).render_cache.entries() == Seq::<(String, String, u64)>::empty(),
            old(self).render_cache.entries().len() <= max_size ==> *final(self) == *old(self),
            final(self).render_cache.spec_ttl() == old(self).render_cache.spec_ttl(),
            final(self).render_cache.spec_capacity() == old(self).render_cache.spec_capacity(),
            final(self).template_path == old(self).template_path,
            final(self).open_delim == old(self).open_delim,
            final(self).close_delim == old(self).close_delim,
    {
        if self.render_cache.len() > max_size {
            self.clear_cache();
        }
    }
}

impl Default for Engine {
    /// An engine with every field defaulted: an empty template path, a cache
    /// with the default time-to-live of one minute, and empty delimiters.
    /// Delimiters must be set before rendering.
    fn default() -> (r: Self)
        ensures
            r.template_path@ == Seq::<char>::empty(),
            r.render_cache.wf(),
            r.render_cache.entries() == Seq::<(String, String, u64)>::empty(),
            r.render_cache.spec_ttl() == 60000,
            r.render_cache.spec_capacity() is None,
            r.open_delim@ == Seq::<char>::empty(),
            r.close_delim@ == Seq::<char>::empty(),
    {
        Engine {
            template_path: String::new(),
            render_cache: Cache::default(),
            open_delim: String::new(),
            close_delim: String::new(),
        }
    }
}

/// Whether a path is a web address: it starts with `http://` or `https://`.
pub fn is_url(path: &str) -> (r: bool)
    ensures
        r == (match_at(path@, "http://"@, 0) || match_at(path@, "https://"@, 0)),
{
    proof {
        reveal_strlit("http://");
        reveal_strlit("https://");
    }
    let t = to_chars(path);
    let p1 = to_chars("http://");
    let p2 = to_chars("https://");
    let m1 = if p1.len() <= t.len() {
        crate::scan::match_at_exec(&t, &p1, 0)
    } else {
        false
    };
    let m2 = if p2.len() <= t.len() {
        crate::scan::match_at_exec(&t, &p2, 0)
    } else {
        false
    };
    m1 || m2
}

} // verus!
