//! Map tile providers: where their tiles are fetched from and cached.
use vstd::prelude::*;
use vstd::string::*;

verus! {

/// A source of background map tiles.
#[derive(Debug, Clone, Copy, PartialEq, Eq, Structural)]
pub enum Provider {
    OpenStreetMap,
    OpenTopoMap,
}

/// The tile provider as it is chosen on the command line.
#[derive(Debug, Clone, Copy, PartialEq, Eq, Structural)]
pub enum TileProvider {
    Openstreetmap,
    Opentopomap,
}

/// The decimal digit `d` as a character.
pub open spec fn digit_char(d: nat) -> char {
    if d == 0 { '0' } else if d == 1 { '1' } else if d == 2 { '2' } else if d == 3 { '3' }
    else if d == 4 { '4' } else if d == 5 { '5' } else if d == 6 { '6' } else if d == 7 { '7' }
    else if d == 8 { '8' } else { '9' }
}

/// The decimal notation of `n`, without leading zeros.
pub open spec fn decimal(n: nat) -> Seq<char>
    decreases n,
{
    if n < 10 {
        seq![digit_char(n)]
    } else {
        decimal(n / 10).push(digit_char(n % 10))
    }
}

/// The URL path `{z}/{x}/{y}.png` of one tile.
pub open spec fn tile_path(z: u32, x: u32, y: u32) -> Seq<char> {
    decimal(z as nat) + seq!['/'] + decimal(x as nat) + seq!['/'] + decimal(y as nat) + ".png"@
}

fn digit_str(d: u32) -> (r: &'static str)
    requires
        d < 10,
    ensures
        r@ == seq![digit_char(d as nat)],
{
    proof {
        reveal_strlit("0");
        reveal_strlit("1");
        reveal_strlit("2");
        reveal_strlit("3");
        reveal_strlit("4");
        reveal_strlit("5");
        reveal_strlit("6");
        reveal_strlit("7");
        reveal_strlit("8");
        reveal_strlit("9");
    }
    if d == 0 { "0" } else if d == 1 { "1" } else if d == 2 { "2" } else if d == 3 { "3" }
    else if d == 4 { "4" } else if d == 5 { "5" } else if d == 6 { "6" } else if d == 7 { "7" }
    else if d == 8 { "8" } else { "9" }
}

/// Appends the decimal notation of `n` to `out`.
fn push_decimal(out: &mut String, n: u32)
    ensures
        final(out)@ == old(out)@ + decimal(n as nat),
    decreases n,
{
    if n < 10 {
        out.append(digit_str(n));
    } else {
        push_decimal(out, n / 10);
        out.append(digit_str(n % 10));
    }
}

/// Maps the command-line choice to its provider.
pub fn resolve_provider(tp: &TileProvider) -> (r: Provider)
    ensures
        *tp == TileProvider::Openstreetmap ==> r == Provider::OpenStreetMap,
        *tp == TileProvider::Opentopomap ==> r == Provider::OpenTopoMap,
{
    match tp {
        TileProvider::Openstreetmap => Provider::OpenStreetMap,
        TileProvider::Opentopomap => Provider::OpenTopoMap,
    }
}

impl Provider {
    /// The host that serves this provider's tiles, with scheme and trailing slash.
    pub open spec fn base_url(self) -> Seq<char> {
        match self {
            Provider::OpenStreetMap => "https://tile.openstreetmap.org/"@,
            Provider::OpenTopoMap => "https://tile.opentopomap.org/"@,
        }
    }

    /// The URL of tile (`x`, `y`) at zoom level `z`.
    pub fn tile_url(&self, z: u32, x: u32, y: u32) -> (r: String)
        ensures
            r@ == self.base_url() + tile_path(z, x, y),
    {
        proof {
            reveal_strlit("https://tile.openstreetmap.org/");
            reveal_strlit("https://tile.opentopomap.org/");
            reveal_strlit("/");
            reveal_strlit(".png");
        }
        let mut url = match self {
            Provider::OpenStreetMap => String::from_str("https://tile.openstreetmap.org/"),
            Provider::OpenTopoMap => String::from_str("https://tile.opentopomap.org/"),
        };
        push_decimal(&mut url, z);
        url.append("/");
        push_decimal(&mut url, x);
        url.append("/");
        push_decimal(&mut url, y);
        url.append(".png");
        assert(url@ =~= self.base_url() + tile_path(z, x, y));
        url
    }

    /// The directory, under the tile cache, that holds this provider's tiles.
    pub fn cache_subdir(&self) -> (r: &'static str)
        ensures
            *self == Provider::OpenStreetMap ==> r@ == "osm"@,
            *self == Provider::OpenTopoMap ==> r@ == "topo"@,
    {
        match self {
            Provider::OpenStreetMap => "osm",
            Provider::OpenTopoMap => "topo",
        }
    }

    /// The provider's display name.
    pub fn name(&self) -> (r: &'static str)
        ensures
            *self == Provider::OpenStreetMap ==> r@ == "OpenStreetMap"@,
            *self == Provider::OpenTopoMap ==> r@ == "OpenTopoMap"@,
    {
        match self {
            Provider::OpenStreetMap => "OpenStreetMap",
            Provider::OpenTopoMap => "OpenTopoMap",
        }
    }
}

} // verus!
