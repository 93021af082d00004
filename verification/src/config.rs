use vstd::prelude::*;

verus! {

/// The capture hints shown when no settings file provides any.
pub fn default_capture_hints() -> (r: Vec<String>)
    ensures
        r@.len() == 5,
        r@[0]@ == "L'idee que je viens d'avoir :"@,
        r@[1]@ == "Note rapide :"@,
        r@[2]@ == "Je ne dois pas oublier :"@,
        r@[3]@ == "Pense-bete du moment :"@,
        r@[4]@ == "A creuser plus tard :"@,
{
    let mut r: Vec<String> = Vec::new();
    r.push(String::from_str("L'idee que je viens d'avoir :"));
    r.push(String::from_str("Note rapide :"));
    r.push(String::from_str("Je ne dois pas oublier :"));
    r.push(String::from_str("Pense-bete du moment :"));
    r.push(String::from_str("A creuser plus tard :"));
    r
}

/// Picks the capture hint for a fresh panel: the seed chooses among the
/// configured hints, and a fixed prompt stands in when none are configured.
pub fn pick_hint(hints: &Vec<String>, seed: usize) -> (r: String)
    ensures
        hints@.len() == 0 ==> r@ == "L'idee que je viens d'avoir :"@,
        hints@.len() > 0 ==> r@ == hints@[seed as int % hints@.len() as int]@,
{
    if hints.len() == 0 {
        String::from_str("L'idee que je viens d'avoir :")
    } else {
        hints[seed % hints.len()].clone()
    }
}

} // verus!
