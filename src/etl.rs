use vstd::prelude::*;

verus! {

/// A raw reading before cleaning.
#[derive(Debug, Clone, Copy, PartialEq, Eq, Structural)]
pub struct RawData {
    pub id: u32,
    pub value: i32,
}

/// A reading after cleaning: its value lies in `0..=100`.
#[derive(Debug, Clone, Copy, PartialEq, Eq, Structural)]
pub struct CleanData {
    pub id: u32,
    pub value: i32,
}

/// A value clamped to `0..=100`: negatives become 0, outliers above 100
/// become 100.
pub open spec fn clean_value(v: i32) -> i32 {
    if v < 0 {
        0
    } else if v > 100 {
        100
    } else {
        v
    }
}

/// Cleans one value; it never fails.
pub fn transform_value(value: i32) -> (r: Result<i32, String>)
    ensures
        r == Ok::<i32, String>(clean_value(value)),
{
    if value < 0 {
        Ok(0)
    } else if value > 100 {
        Ok(100)
    } else {
        Ok(value)
    }
}

/// Cleans every reading, keeping ids and order.
pub fn extract_transform_load(raw: Vec<RawData>) -> (r: Result<Vec<CleanData>, String>)
    ensures
        r matches Ok(v) && v@.len() == raw@.len() && forall|i: int|
            0 <= i < raw@.len() ==> (#[trigger] v@[i]).id == raw@[i].id && v@[i].value
                == clean_value(raw@[i].value),
{
    let mut cleaned_data: Vec<CleanData> = Vec::new();
    let mut i: usize = 0;
    while i < raw.len()
        invariant
            i <= raw@.len(),
            cleaned_data@.len() == i,
            forall|j: int|
                0 <= j < i ==> (#[trigger] cleaned_data@[j]).id == raw@[j].id
                    && cleaned_data@[j].value == clean_value(raw@[j].value),
        decreases raw@.len() - i,
    {
        let r = raw[i];
        let transformed_value = match transform_value(r.value) {
            Ok(v) => v,
            Err(e) => return Err(e),
        };
        cleaned_data.push(CleanData { id: r.id, value: transformed_value });
        i = i + 1;
    }
    Ok(cleaned_data)
}

} // verus!
